//! Searching and filtering, and the prompts for them.
use vstd::prelude::*;
use vstd::string::StringExecFns;

use crate::app::screen;
use crate::app::{AnalysisRow, App, AppModel, RowModel, ViewKind};
use crate::filter;
use crate::lists;
use crate::text;
use crate::tree;
use crate::tree::{NodeId, TreeModel, VisibleNode};

verus! {

/// What is searched for when a text is entered: nothing, if it is blank.
pub open spec fn query_of(value: Seq<char>) -> Option<Seq<char>> {
    let trimmed = text::trimmed(value);
    if trimmed.len() == 0 {
        None
    } else {
        Some(trimmed)
    }
}

/// What is searched for when a text is entered.
pub fn normalize_query(value: &str) -> (query: Option<String>)
    ensures
        tree::text_view(query) == query_of(value@),
{
    let trimmed = text::trim(value);
    if trimmed.as_str().unicode_len() == 0 {
        None
    } else {
        Some(trimmed)
    }
}

/// Whether a row of an analysis view holds the query, in its label or path,
/// whatever the case.
pub open spec fn row_matches(row: RowModel, query: Seq<char>) -> bool {
    let lower = text::lowercase(query);
    text::contains_text(text::lowercase(row.label), lower) || (match row.path {
        Some(path) => text::contains_text(text::lowercase(text::lossy_text(path@)), lower),
        None => false,
    })
}

/// The places of the rows that hold the query.
pub open spec fn matching_rows(rows: Seq<RowModel>, query: Seq<char>) -> Seq<usize>
    decreases rows.len(),
{
    if rows.len() == 0 {
        Seq::empty()
    } else {
        let rest = matching_rows(rows.drop_last(), query);
        if row_matches(rows.last(), query) {
            rest.push((rows.len() - 1) as usize)
        } else {
            rest
        }
    }
}

/// Whether a node of a tree is named like the query.
pub open spec fn named_in(tree: TreeModel, query: Seq<char>) -> spec_fn(NodeId) -> bool {
    |id: NodeId| tree.nodes.contains_key(id) && tree.nodes[id].is_named(query)
}

pub open spec fn row_ids(rows: Seq<VisibleNode>) -> Seq<NodeId> {
    Seq::new(rows.len(), |i: int| rows[i].node_id)
}

/// Whether a list item is the given one.
pub open spec fn is_item<T>(item: T) -> spec_fn(T) -> bool {
    |other: T| other == item
}

/// Where an item stands in a list.
pub open spec fn place_of<T>(items: Seq<T>, item: T) -> Option<int> {
    let at = lists::first_index(items, is_item(item));
    if at < items.len() {
        Some(at)
    } else {
        None
    }
}

/// The match to go to: the first one, or the one after or before the current
/// one, round the end.
pub open spec fn next_match(count: nat, current: Option<int>, forward: bool, advance: bool) -> int {
    if !advance {
        0
    } else if forward {
        match current {
            Some(index) => (index + 1) % count as int,
            None => 0,
        }
    } else {
        match current {
            Some(index) => if index > 0 {
                index - 1
            } else {
                count - 1
            },
            None => count - 1,
        }
    }
}

pub open spec fn match_text(index: int, count: nat) -> Seq<char> {
    "Search match "@ + text::decimal((index + 1) as nat) + "/"@ + text::decimal(count)
}

/// A text in quotation marks.
pub open spec fn in_quotes(before: Seq<char>, query: Seq<char>) -> Seq<char> {
    before + query + "\""@
}

impl AppModel {
    pub open spec fn with_analysis_row(self, index: usize) -> AppModel {
        AppModel { analysis_selected: index, ..self }
    }

    /// The nodes that a search goes through: those that are shown, where there
    /// is a filter, and else all that are loaded.
    pub open spec fn candidates(self) -> Seq<NodeId> {
        if self.filter_query is Some {
            row_ids(self.visible)
        } else {
            tree::loaded_ids(self.tree)
        }
    }

    /// The nodes that are named like the query.
    pub open spec fn matching_nodes(self, query: Seq<char>) -> Seq<NodeId> {
        self.candidates().filter(named_in(self.tree, query))
    }

    pub open spec fn current_match(self, matches: Seq<NodeId>) -> Option<int> {
        match self.selected {
            Some(id) => place_of(matches, id),
            None => None,
        }
    }

    /// The state after a search in an analysis view.
    pub open spec fn row_found(self, query: Seq<char>, forward: bool, advance: bool) -> AppModel {
        let matches = matching_rows(self.analysis_rows, query);
        if matches.len() == 0 {
            self.noticed(in_quotes("No analysis row matches \""@, query))
        } else {
            let index = next_match(
                matches.len(),
                place_of(matches, self.analysis_selected),
                forward,
                advance,
            );
            self.row_shown(matches[index], index, matches.len())
        }
    }

    /// The state with a row selected that a search found.
    pub open spec fn row_shown(self, row: usize, index: int, count: nat) -> AppModel {
        self.with_analysis_row(row).analysis_scrolled().noticed(match_text(index, count))
    }

    pub open spec fn opened_to(self, id: NodeId) -> AppModel {
        AppModel { tree: tree::opened_to(self.tree, id), ..self }
    }

    /// The state with a node selected that a search found, if it is shown.
    pub open spec fn match_shown(self, id: NodeId, index: int, count: nat) -> AppModel {
        if screen::place_in(self.visible, Some(id)) is Some {
            self.with_selected(id).scrolled().noticed(match_text(index, count))
        } else {
            self
        }
    }

    /// The state after a search in the tree.
    pub open spec fn node_found(self, query: Seq<char>, forward: bool, advance: bool) -> AppModel {
        let matches = self.matching_nodes(query);
        if matches.len() == 0 {
            self.noticed(in_quotes("No loaded item matches \""@, query))
        } else {
            let index = next_match(
                matches.len(),
                self.current_match(matches),
                forward,
                advance,
            );
            self.opened_to(matches[index]).rebuilt().match_shown(
                matches[index],
                index,
                matches.len(),
            )
        }
    }

    /// The state after a search.
    pub open spec fn searched(self, forward: bool, advance: bool) -> AppModel {
        match self.search_query {
            Some(query) => if query.len() == 0 {
                self.noticed("No search query; press / to enter one"@)
            } else if self.active_view != ViewKind::Tree {
                self.row_found(query, forward, advance)
            } else {
                self.node_found(query, forward, advance)
            },
            None => self.noticed("No search query; press / to enter one"@),
        }
    }
}

fn row_holds(row: &AnalysisRow, query: &str) -> (result: bool)
    ensures
        result == row_matches(row@, query@),
{
    let lower = query.to_lowercase();
    if text::contains_lower(row.label.as_str(), lower.as_str()) {
        return true;
    }
    match &row.path {
        Some(path) => {
            let shown = path.display();
            text::contains_lower(shown.as_str(), lower.as_str())
        },
        None => false,
    }
}

fn find_rows(rows: &Vec<AnalysisRow>, query: &str) -> (found: Vec<usize>)
    ensures
        found@ == matching_rows(crate::app::row_views(rows@), query@),
        forall|i: int| 0 <= i < found@.len() ==> #[trigger] found@[i] < rows@.len(),
{
    let ghost views = crate::app::row_views(rows@);
    let mut found: Vec<usize> = Vec::new();
    let mut i: usize = 0;
    while i < rows.len()
        invariant
            i <= rows@.len(),
            views == crate::app::row_views(rows@),
            found@ == matching_rows(views.take(i as int), query@),
            forall|j: int| 0 <= j < found@.len() ==> #[trigger] found@[j] < i,
        decreases rows@.len() - i,
    {
        assert(views.take(i + 1).drop_last() =~= views.take(i as int));
        if row_holds(&rows[i], query) {
            found.push(i);
        }
        i += 1;
    }
    assert(views.take(i as int) =~= views);
    found
}

fn place_among(places: &Vec<usize>, wanted: usize) -> (place: Option<usize>)
    ensures
        match place {
            Some(place) => place_of(places@, wanted) == Some(place as int) && place < places@.len(),
            None => place_of(places@, wanted) is None,
        },
{
    let mut i: usize = 0;
    while i < places.len()
        invariant
            i <= places@.len(),
            forall|j: int| 0 <= j < i ==> !is_item(wanted)(#[trigger] places@[j]),
        decreases places@.len() - i,
    {
        if places[i] == wanted {
            proof {
                lists::lemma_first_index(places@, is_item(wanted), i as int);
            }
            return Some(i);
        }
        i += 1;
    }
    proof {
        lists::lemma_first_index(places@, is_item(wanted), i as int);
    }
    None
}

fn place_of_node(ids: &Vec<NodeId>, wanted: NodeId) -> (place: Option<usize>)
    ensures
        match place {
            Some(place) => place_of(ids@, wanted) == Some(place as int) && place < ids@.len(),
            None => place_of(ids@, wanted) is None,
        },
{
    let mut i: usize = 0;
    while i < ids.len()
        invariant
            i <= ids@.len(),
            forall|j: int| 0 <= j < i ==> !is_item(wanted)(#[trigger] ids@[j]),
        decreases ids@.len() - i,
    {
        if ids[i] == wanted {
            proof {
                lists::lemma_first_index(ids@, is_item(wanted), i as int);
            }
            return Some(i);
        }
        i += 1;
    }
    proof {
        lists::lemma_first_index(ids@, is_item(wanted), i as int);
    }
    None
}

/// A place that may be missing.
pub open spec fn place_view(place: Option<usize>) -> Option<int> {
    match place {
        Some(place) => Some(place as int),
        None => None,
    }
}

fn choose_match(count: usize, current: Option<usize>, forward: bool, advance: bool) -> (index: usize)
    requires
        count > 0,
        current matches Some(place) ==> place < count,
    ensures
        index < count,
        index == next_match(count as nat, place_view(current), forward, advance),
{
    if !advance {
        0
    } else if forward {
        match current {
            Some(index) => (index + 1) % count,
            None => 0,
        }
    } else {
        match current {
            Some(index) => {
                if index > 0 {
                    index - 1
                } else {
                    count - 1
                }
            },
            None => count - 1,
        }
    }
}

fn found_text(index: usize, count: usize) -> (told: String)
    requires
        index < count,
    ensures
        told@ == match_text(index as int, count as nat),
{
    let mut told = "Search match ".to_owned();
    text::push_count(&mut told, index + 1);
    told.append("/");
    text::push_count(&mut told, count);
    told
}

impl App {
    pub(crate) fn set_analysis_row(&mut self, index: usize)
        requires
            old(self).wf(),
            index < old(self).analysis_rows@.len(),
        ensures
            final(self).wf(),
            final(self)@ == old(self)@.with_analysis_row(index),
    {
        self.analysis_selected = index;
    }

    pub(crate) fn say_quoted(&mut self, before: &str, query: &str)
        requires
            old(self).wf(),
        ensures
            final(self).wf(),
            final(self)@ == old(self)@.noticed(in_quotes(before@, query@)),
    {
        let mut told = before.to_owned();
        told.append(query);
        told.append("\"");
        self.say(told.as_str());
    }

    fn find_row_match(&mut self, query: &str, forward: bool, advance: bool)
        requires
            old(self).wf(),
        ensures
            final(self).wf(),
            final(self)@ == old(self)@.row_found(query@, forward, advance),
    {
        let matches = find_rows(&self.analysis_rows, query);
        if matches.len() == 0 {
            self.say_quoted("No analysis row matches \"", query);
            return ;
        }
        let current = place_among(&matches, self.analysis_selected);
        let index: usize = choose_match(matches.len(), current, forward, advance);
        self.show_row(matches[index], index, matches.len());
    }

    fn show_row(&mut self, row: usize, index: usize, count: usize)
        requires
            old(self).wf(),
            row < old(self).analysis_rows@.len(),
            index < count,
        ensures
            final(self).wf(),
            final(self)@ == old(self)@.row_shown(row, index as int, count as nat),
    {
        self.set_analysis_row(row);
        self.ensure_analysis_selection_visible();
        let told = found_text(index, count);
        self.say(told.as_str());
    }

    fn visible_ids(&self) -> (ids: Vec<NodeId>)
        ensures
            ids@ == row_ids(self@.visible),
    {
        let mut ids: Vec<NodeId> = Vec::new();
        let mut i: usize = 0;
        while i < self.visible.len()
            invariant
                i <= self.visible@.len(),
                ids@ == row_ids(self@.visible).take(i as int),
            decreases self.visible@.len() - i,
        {
            ids.push(self.visible[i].node_id);
            assert(ids@ =~= row_ids(self@.visible).take(i + 1));
            i += 1;
        }
        assert(ids@ =~= row_ids(self@.visible));
        ids
    }

    fn find_nodes(&self, query: &str) -> (found: Vec<NodeId>)
        requires
            self.wf(),
        ensures
            found@ == self@.matching_nodes(query@),
    {
        let candidates: Vec<NodeId> = if self.filter_query.is_some() {
            self.visible_ids()
        } else {
            self.tree.all_loaded()
        };
        let ghost keep = named_in(self@.tree, query@);
        let mut found: Vec<NodeId> = Vec::new();
        let mut i: usize = 0;
        proof {
            reveal(Seq::filter);
            assert(candidates@.take(0).filter(keep) =~= Seq::empty());
        }
        while i < candidates.len()
            invariant
                i <= candidates@.len(),
                keep == named_in(self@.tree, query@),
                found@ == candidates@.take(i as int).filter(keep),
            decreases candidates@.len() - i,
        {
            proof {
                lists::lemma_filter_step(candidates@, keep, i as int);
            }
            if let Some(node) = self.tree.get(candidates[i]) {
                if node.matches(query) {
                    found.push(candidates[i]);
                }
            }
            i += 1;
        }
        assert(candidates@.take(i as int) =~= candidates@);
        found
    }

    fn open_to(&mut self, node_id: NodeId)
        requires
            old(self).wf(),
        ensures
            final(self).wf(),
            final(self)@ == old(self)@.opened_to(node_id),
    {
        self.tree.expand_ancestors(node_id);
    }

    fn show_match(&mut self, node_id: NodeId, index: usize, count: usize)
        requires
            old(self).wf(),
            index < count,
        ensures
            final(self).wf(),
            final(self)@ == old(self)@.match_shown(node_id, index as int, count as nat),
    {
        if screen::find_row(&self.visible, node_id).is_some() {
            self.select_node(node_id);
            self.ensure_selection_visible();
            let told = found_text(index, count);
            self.say(told.as_str());
        }
    }

    fn place_of_selected(&self, matches: &Vec<NodeId>) -> (place: Option<usize>)
        ensures
            place_view(place) == self@.current_match(matches@),
            place matches Some(at) ==> at < matches@.len(),
    {
        match self.selected {
            Some(id) => place_of_node(matches, id),
            None => None,
        }
    }

    fn find_node_match(&mut self, query: &str, forward: bool, advance: bool)
        requires
            old(self).wf(),
        ensures
            final(self).wf(),
            final(self)@ == old(self)@.node_found(query@, forward, advance),
    {
        let matches = self.find_nodes(query);
        if matches.len() == 0 {
            self.say_quoted("No loaded item matches \"", query);
            return ;
        }
        let current = self.place_of_selected(&matches);
        let index: usize = choose_match(matches.len(), current, forward, advance);
        let node_id: NodeId = matches[index];
        self.open_to(node_id);
        self.rebuild_visible();
        self.show_match(node_id, index, matches.len());
    }

    /// Goes to a row that holds what is searched for.
    pub fn find_search_match(&mut self, forward: bool, advance: bool)
        requires
            old(self).wf(),
        ensures
            final(self).wf(),
            final(self)@ == old(self)@.searched(forward, advance),
    {
        let query: String = match &self.search_query {
            Some(query) => query.clone(),
            None => {
                self.say("No search query; press / to enter one");
                return ;
            },
        };
        if query.as_str().unicode_len() == 0 {
            self.say("No search query; press / to enter one");
            return ;
        }
        if self.active_view != ViewKind::Tree {
            self.find_row_match(query.as_str(), forward, advance);
        } else {
            self.find_node_match(query.as_str(), forward, advance);
        }
    }
}

/// Going on from match to match, forward or backward, comes to every match and
/// back to where it began.
pub proof fn going_on_goes_round(count: nat, index: int)
    requires
        0 <= index < count,
    ensures
        0 <= next_match(count, Some(index), true, true) < count,
        0 <= next_match(count, Some(index), false, true) < count,
        next_match(
            count,
            Some(next_match(count, Some(index), true, true)),
            false,
            true,
        ) == index,
        next_match(
            count,
            Some(next_match(count, Some(index), false, true)),
            true,
            true,
        ) == index,
        index + 1 < count ==> next_match(count, Some(index), true, true) == index + 1,
        next_match(count, Some(count - 1), true, true) == 0,
{
    if index + 1 < count {
        assert((index + 1) % count as int == index + 1) by (nonlinear_arith)
            requires
                0 <= index,
                index + 1 < count,
        ;
    } else {
        assert((index + 1) % count as int == 0) by (nonlinear_arith)
            requires
                index + 1 == count,
                count > 0,
        ;
    }
    assert(count as int % count as int == 0) by (nonlinear_arith)
        requires
            count > 0,
    ;
    if index > 0 {
        assert(index % count as int == index) by (nonlinear_arith)
            requires
                0 <= index < count,
        ;
    }
}

/// A query is what was typed without white space around it; a blank one is none.
pub proof fn queries_have_no_white_ends(value: Seq<char>)
    ensures
        query_of(value) is None <==> forall|i: int|
            0 <= i < value.len() ==> text::is_white(#[trigger] value[i]),
        query_of(value) is Some ==> query_of(value)->0 == text::trimmed(value),
{
    let ends = text::trimming_takes_white_ends_off(value);
    let inner = text::trimmed(value);
    assert(value == ends.0 + inner + ends.1);
    if inner.len() == 0 {
        assert forall|i: int| 0 <= i < value.len() implies text::is_white(#[trigger] value[i]) by {
            if i < ends.0.len() {
                assert(value[i] == ends.0[i]);
            } else {
                assert(value[i] == ends.1[i - ends.0.len()]);
            }
        }
    } else {
        assert(value[ends.0.len() as int] == inner[0]);
    }
}

/// A row is found by a part of its label or of its path, whatever the case.
pub proof fn rows_are_found_by_label_or_path(row: RowModel, query: Seq<char>)
    ensures
        row_matches(row, query) <==> text::contains_text(
            text::lowercase(row.label),
            text::lowercase(query),
        ) || (row.path is Some && text::contains_text(
            text::lowercase(text::lossy_text(row.path->0@)),
            text::lowercase(query),
        )),
{
}

/// The matching rows are those that match, each once, in their order.
pub proof fn matching_rows_come_in_order(rows: Seq<RowModel>, query: Seq<char>)
    requires
        rows.len() <= usize::MAX,
    ensures
        forall|place: usize| #[trigger]
            matching_rows(rows, query).contains(place) <==> place < rows.len() && row_matches(
                rows[place as int],
                query,
            ),
        forall|i: int, j: int|
            0 <= i < j < matching_rows(rows, query).len() ==> #[trigger] matching_rows(
                rows,
                query,
            )[i] < #[trigger] matching_rows(rows, query)[j],
    decreases rows.len(),
{
    if rows.len() > 0 {
        let front = rows.drop_last();
        let before = matching_rows(front, query);
        let after = matching_rows(rows, query);
        let last = (rows.len() - 1) as usize;
        matching_rows_come_in_order(front, query);
        assert forall|place: usize| #[trigger] after.contains(place) <==> place < rows.len()
            && row_matches(rows[place as int], query) by {
            if place < last {
                assert(front[place as int] == rows[place as int]);
                assert(before.contains(place) <==> row_matches(rows[place as int], query));
                if before.contains(place) {
                    let k = choose|k: int| 0 <= k < before.len() && before[k] == place;
                    assert(after[k] == place);
                }
                if after.contains(place) {
                    let k = choose|k: int| 0 <= k < after.len() && after[k] == place;
                    assert(before[k] == place);
                }
            } else {
                if place == last && row_matches(rows[place as int], query) {
                    assert(after[before.len() as int] == last);
                }
                if after.contains(place) {
                    let k = choose|k: int| 0 <= k < after.len() && after[k] == place;
                    if k < before.len() {
                        assert(before[k] == place);
                        assert(before.contains(place));
                    }
                }
            }
        }
        assert forall|i: int, j: int| 0 <= i < j < after.len() implies #[trigger] after[i]
            < #[trigger] after[j] by {
            assert(before.contains(before[i]));
            if j < before.len() {
                assert(before[i] < before[j]);
            }
        }
    }
}

/// A new search begins with the first match; going on from no match begins with
/// the first one forwards and with the last one backwards.
pub proof fn searches_begin_with_the_first_match(count: nat, current: Option<int>, forward: bool)
    requires
        count > 0,
    ensures
        next_match(count, current, forward, false) == 0,
        next_match(count, None, true, true) == 0,
        next_match(count, None, false, true) == count - 1,
{
}

/// While a filter is in use only what it shows is searched, and else all that was
/// loaded; a match is an entry with the query in its name.
pub proof fn shown_or_loaded_entries_are_searched(state: AppModel, query: Seq<char>, id: NodeId)
    ensures
        state.filter_query is None ==> state.candidates() == tree::loaded_ids(state.tree),
        state.filter_query is Some ==> (state.candidates().contains(id) <==> exists|i: int|
            0 <= i < state.visible.len() && (#[trigger] state.visible[i]).node_id == id),
        state.matching_nodes(query).contains(id) <==> state.candidates().contains(id)
            && state.tree.nodes.contains_key(id) && text::contains_text(
            text::lowercase(text::lossy_text(state.tree.nodes[id].name)),
            text::lowercase(query),
        ),
{
    let all = state.candidates();
    let keep = named_in(state.tree, query);
    let found = all.filter(keep);
    if found.contains(id) {
        all.lemma_filter_contains_rev(keep, id);
        let k = choose|k: int| 0 <= k < found.len() && found[k] == id;
        all.lemma_filter_pred(keep, k);
    }
    if all.contains(id) && keep(id) {
        let k = choose|k: int| 0 <= k < all.len() && all[k] == id;
        all.lemma_filter_contains(keep, k);
    }
    if state.filter_query is Some {
        let rows = state.visible;
        if all.contains(id) {
            let k = choose|k: int| 0 <= k < all.len() && all[k] == id;
            assert(rows[k].node_id == id);
        }
        if exists|i: int| 0 <= i < rows.len() && (#[trigger] rows[i]).node_id == id {
            let i = choose|i: int| 0 <= i < rows.len() && (#[trigger] rows[i]).node_id == id;
            assert(all[i] == id);
        }
    }
}

} // verus!
