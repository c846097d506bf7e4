//! File system events, collected until they are worth acting on.
use vstd::prelude::*;
use vstd::string::StringExecFns;

use crate::order;
use crate::path;
use crate::path::FilePath;
use crate::tree;

verus! {

/// How many events are collected one by one.
pub const EVENT_STORM_LIMIT: usize = 1_000;

/// What changed on disk: some paths, or too much to tell.
#[derive(Debug, PartialEq, Eq)]
pub struct WatchBatch {
    pub paths: Vec<FilePath>,
    pub full_rescan: bool,
    pub warning: Option<String>,
}

/// The bytes of some paths.
pub open spec fn path_bytes(paths: Seq<FilePath>) -> Seq<Seq<u8>> {
    Seq::new(paths.len(), |i: int| paths[i]@)
}

pub struct BatchModel {
    pub paths: Seq<Seq<u8>>,
    pub full_rescan: bool,
    pub warning: Option<Seq<char>>,
}

impl View for WatchBatch {
    type V = BatchModel;

    open spec fn view(&self) -> BatchModel {
        BatchModel {
            paths: path_bytes(self.paths@),
            full_rescan: self.full_rescan,
            warning: tree::text_view(self.warning),
        }
    }
}

/// One event of the watcher. `unclear` when it does not say what happened.
#[derive(Debug)]
pub struct WatchEvent {
    pub unclear: bool,
    pub paths: Vec<FilePath>,
}

/// The events since the last batch, and how many there were. Times are in
/// milliseconds.
#[derive(Debug)]
pub struct EventAccumulator {
    pub events: usize,
    pub paths: Vec<FilePath>,
    pub first_event: Option<u64>,
    pub full_rescan: bool,
    pub warning: Option<String>,
}

pub struct AccumulatorModel {
    pub events: usize,
    pub paths: Seq<Seq<u8>>,
    pub first_event: Option<u64>,
    pub full_rescan: bool,
    pub warning: Option<Seq<char>>,
}

impl View for EventAccumulator {
    type V = AccumulatorModel;

    open spec fn view(&self) -> AccumulatorModel {
        AccumulatorModel {
            events: self.events,
            paths: path_bytes(self.paths@),
            first_event: self.first_event,
            full_rescan: self.full_rescan,
            warning: tree::text_view(self.warning),
        }
    }
}

/// Whether a path is among some others.
pub open spec fn holds_path(paths: Seq<Seq<u8>>, path: Seq<u8>) -> bool {
    exists|i: int| 0 <= i < paths.len() && path::same_path(#[trigger] paths[i], path)
}

/// Whether no path comes twice.
pub open spec fn distinct_paths(paths: Seq<Seq<u8>>) -> bool {
    forall|i: int, j: int|
        0 <= i < j < paths.len() ==> !path::same_path(#[trigger] paths[i], #[trigger] paths[j])
}

/// A path as the watcher means it: seen from the root, unless it is absolute.
pub open spec fn resolved(root: Seq<u8>, path: Seq<u8>) -> Seq<u8> {
    if path::is_rooted(path) {
        path
    } else {
        path::joined_path(root, path)
    }
}

/// The paths with one more, if it lies below the root and is new.
pub open spec fn with_path(paths: Seq<Seq<u8>>, root: Seq<u8>, path: Seq<u8>) -> Seq<Seq<u8>> {
    let full = resolved(root, path);
    if path::path_starts_with(full, root) && !holds_path(paths, full) {
        paths.push(full)
    } else {
        paths
    }
}

/// The paths with those of an event.
pub open spec fn with_paths(paths: Seq<Seq<u8>>, root: Seq<u8>, more: Seq<FilePath>) -> Seq<Seq<u8>>
    decreases more.len(),
{
    if more.len() == 0 {
        paths
    } else {
        with_path(with_paths(paths, root, more.drop_last()), root, more.last()@)
    }
}

/// The sort keys of paths.
pub open spec fn path_keys(paths: Seq<Seq<u8>>) -> Seq<Seq<u64>> {
    Seq::new(paths.len(), |i: int| path::path_key(paths[i]))
}

impl AccumulatorModel {
    pub open spec fn empty() -> AccumulatorModel {
        AccumulatorModel {
            events: 0,
            paths: Seq::empty(),
            first_event: None,
            full_rescan: false,
            warning: None,
        }
    }

    /// The time of the first event since the last batch.
    pub open spec fn begun(self, now: u64) -> Option<u64> {
        match self.first_event {
            Some(time) => Some(time),
            None => Some(now),
        }
    }

    /// The number of events with one more, up to the largest.
    pub open spec fn one_event_more(self) -> usize {
        if self.events < usize::MAX {
            (self.events + 1) as usize
        } else {
            self.events
        }
    }

    /// The state after an event. Too many events or paths are given up for a
    /// rescan of the whole root.
    pub open spec fn after_event(
        self,
        root: Seq<u8>,
        unclear: bool,
        more: Seq<FilePath>,
        now: u64,
    ) -> AccumulatorModel {
        let paths = with_paths(self.paths, root, more);
        let events = self.one_event_more();
        if events > EVENT_STORM_LIMIT || paths.len() > EVENT_STORM_LIMIT {
            AccumulatorModel {
                events,
                paths: Seq::empty(),
                first_event: self.begun(now),
                full_rescan: true,
                warning: Some("Filesystem event storm; refreshing the root once"@),
            }
        } else {
            AccumulatorModel {
                events,
                paths,
                first_event: self.begun(now),
                full_rescan: self.full_rescan || unclear,
                warning: self.warning,
            }
        }
    }

    /// The state after a failure of the watcher.
    pub open spec fn after_error(self, message: Seq<char>, now: u64) -> AccumulatorModel {
        AccumulatorModel {
            first_event: self.begun(now),
            full_rescan: true,
            warning: Some("Watcher warning: "@ + message),
            ..self
        }
    }

    /// Whether the first event lies far enough back.
    pub open spec fn is_ready(self, debounce: u64, now: u64) -> bool {
        match self.first_event {
            Some(time) => tree::saturated(now - time) >= debounce,
            None => false,
        }
    }

    /// What is handed over.
    pub open spec fn batch(self) -> BatchModel {
        BatchModel {
            paths: order::sorted_by(self.paths, path_keys(self.paths)),
            full_rescan: self.full_rescan,
            warning: self.warning,
        }
    }
}

impl Default for EventAccumulator {
    fn default() -> (accumulator: Self)
        ensures
            accumulator@ == AccumulatorModel::empty(),
            accumulator.wf(),
    {
        let accumulator = EventAccumulator {
            events: 0,
            paths: Vec::new(),
            first_event: None,
            full_rescan: false,
            warning: None,
        };
        assert(accumulator@.paths =~= Seq::empty());
        accumulator
    }
}

impl EventAccumulator {
    /// No path comes twice, and there are not too many.
    pub open spec fn wf(self) -> bool {
        distinct_paths(self@.paths) && self@.paths.len() <= EVENT_STORM_LIMIT
    }

    fn insert(&mut self, root: &FilePath, path: FilePath)
        requires
            distinct_paths(old(self)@.paths),
        ensures
            distinct_paths(final(self)@.paths),
            final(self)@ == (AccumulatorModel {
                paths: with_path(old(self)@.paths, root@, path@),
                ..old(self)@
            }),
    {
        let ghost before = self@.paths;
        let full: FilePath = if path.is_absolute() {
            path
        } else {
            root.join(&path)
        };
        if !full.starts_with(root) {
            return ;
        }
        let mut i: usize = 0;
        while i < self.paths.len()
            invariant
                i <= self.paths@.len(),
                *self == *old(self),
                before == self@.paths,
                distinct_paths(before),
                full@ == resolved(root@, path@),
                path::path_starts_with(full@, root@),
                forall|k: int| 0 <= k < i ==> !path::same_path(#[trigger] before[k], full@),
            decreases self.paths@.len() - i,
        {
            if self.paths[i].same(&full) {
                assert(path::same_path(before[i as int], full@));
                return ;
            }
            i += 1;
        }
        self.paths.push(full);
        assert(self@.paths =~= before.push(full@));
    }

    /// Takes in an event.
    pub fn push_event(&mut self, root: &FilePath, event: WatchEvent, now: u64)
        requires
            old(self).wf(),
        ensures
            final(self).wf(),
            final(self)@ == old(self)@.after_event(root@, event.unclear, event.paths@, now),
    {
        let ghost before = self@;
        if self.first_event.is_none() {
            self.first_event = Some(now);
        }
        self.events = self.events.saturating_add(1);
        if event.unclear {
            self.full_rescan = true;
        }
        let ghost started = self@;
        let mut i: usize = 0;
        while i < event.paths.len()
            invariant
                i <= event.paths@.len(),
                distinct_paths(self@.paths),
                self@ == (AccumulatorModel {
                    paths: with_paths(before.paths, root@, event.paths@.take(i as int)),
                    ..started
                }),
            decreases event.paths@.len() - i,
        {
            assert(event.paths@.take(i + 1).drop_last() =~= event.paths@.take(i as int));
            self.insert(root, event.paths[i].clone());
            i += 1;
        }
        assert(event.paths@.take(i as int) =~= event.paths@);
        if self.events > EVENT_STORM_LIMIT || self.paths.len() > EVENT_STORM_LIMIT {
            self.paths = Vec::new();
            self.full_rescan = true;
            self.warning = Some("Filesystem event storm; refreshing the root once".to_owned());
            assert(self@.paths =~= Seq::empty());
        }
    }

    /// Takes in a failure of the watcher.
    pub fn push_error(&mut self, message: String, now: u64)
        requires
            old(self).wf(),
        ensures
            final(self).wf(),
            final(self)@ == old(self)@.after_error(message@, now),
    {
        if self.first_event.is_none() {
            self.first_event = Some(now);
        }
        self.full_rescan = true;
        let mut warning = String::new();
        warning.append("Watcher warning: ");
        warning.append(message.as_str());
        assert(warning@ =~= "Watcher warning: "@ + message@);
        self.warning = Some(warning);
    }

    /// Hands over what was collected, once the first event lies far enough
    /// back, and starts anew.
    pub fn take_if_ready(&mut self, debounce: u64, now: u64) -> (batch: Option<WatchBatch>)
        requires
            old(self).wf(),
        ensures
            final(self).wf(),
            match batch {
                Some(batch) => {
                    &&& old(self)@.is_ready(debounce, now)
                    &&& batch@ == old(self)@.batch()
                    &&& final(self)@ == AccumulatorModel::empty()
                },
                None => !old(self)@.is_ready(debounce, now) && final(self)@ == old(self)@,
            },
    {
        let ready: bool = match self.first_event {
            Some(time) => now.saturating_sub(time) >= debounce,
            None => false,
        };
        if !ready {
            return None;
        }
        let ghost bytes = self@.paths;
        let mut keys: Vec<Vec<u64>> = Vec::new();
        let mut i: usize = 0;
        while i < self.paths.len()
            invariant
                i <= self.paths@.len(),
                bytes == self@.paths,
                keys@.len() == i,
                forall|k: int| 0 <= k < i ==> (#[trigger] keys@[k])@ == path_keys(bytes)[k],
            decreases self.paths@.len() - i,
        {
            keys.push(self.paths[i].sort_key());
            i += 1;
        }
        assert(order::contents(keys@) =~= path_keys(bytes));
        let mut paths: Vec<FilePath> = Vec::new();
        core::mem::swap(&mut paths, &mut self.paths);
        let ghost count: usize = paths.len();
        proof {
            lemma_sorted_bytes(paths@, path_keys(bytes));
        }
        let sorted = order::sort_by_keys(paths, &keys);
        let full_rescan: bool = self.full_rescan;
        let mut warning: Option<String> = None;
        core::mem::swap(&mut warning, &mut self.warning);
        self.events = 0;
        self.full_rescan = false;
        self.first_event = None;
        assert(self@.paths =~= Seq::empty());
        Some(WatchBatch { paths: sorted, full_rescan, warning })
    }
}

/// The bytes of sorted paths are the sorted bytes.
proof fn lemma_sorted_bytes(paths: Seq<FilePath>, keys: Seq<Seq<u64>>)
    requires
        paths.len() == keys.len() <= usize::MAX,
    ensures
        path_bytes(order::sorted_by(paths, keys)) == order::sorted_by(path_bytes(paths), keys),
{
    let order = order::stable_order_exists(keys);
    assert(path_bytes(order::sorted_by(paths, keys)) =~= order::sorted_by(path_bytes(paths), keys));
}

impl AccumulatorModel {
    /// The state after some events, each with the time at which it came.
    pub open spec fn after_events(self, root: Seq<u8>, events: Seq<(WatchEvent, u64)>) -> AccumulatorModel
        decreases events.len(),
    {
        if events.len() == 0 {
            self
        } else {
            let (event, now) = events.last();
            self.after_events(root, events.drop_last()).after_event(
                root,
                event.unclear,
                event.paths@,
                now,
            )
        }
    }
}

proof fn lemma_events_counted(
    state: AccumulatorModel,
    root: Seq<u8>,
    events: Seq<(WatchEvent, u64)>,
)
    ensures
        state.after_events(root, events).events == (if state.events + events.len() > usize::MAX {
            usize::MAX as int
        } else {
            state.events + events.len()
        }),
    decreases events.len(),
{
    if events.len() > 0 {
        lemma_events_counted(state, root, events.drop_last());
    }
}

/// More events than are collected one by one end in one rescan of the whole
/// root, whatever paths they name: no path is left to act on, and when the batch
/// has been handed over there is nothing more to do.
pub proof fn a_storm_ends_in_one_rescan(
    state: AccumulatorModel,
    root: Seq<u8>,
    events: Seq<(WatchEvent, u64)>,
    now: u64,
)
    requires
        events.len() > 0,
        state.events + events.len() > EVENT_STORM_LIMIT,
    ensures
        state.after_events(root, events).batch().full_rescan,
        state.after_events(root, events).batch().paths.len() == 0,
        state.after_events(root, events).batch().warning == Some(
            "Filesystem event storm; refreshing the root once"@,
        ),
        !AccumulatorModel::empty().is_ready(0, now),
{
    let after = state.after_events(root, events);
    lemma_events_counted(state, root, events);
    lemma_events_counted(state, root, events.drop_last());
    let order = order::stable_order_exists(path_keys(after.paths));
}

/// Too many paths end in one rescan of the whole root too.
pub proof fn too_many_paths_end_in_one_rescan(
    state: AccumulatorModel,
    root: Seq<u8>,
    unclear: bool,
    more: Seq<FilePath>,
    now: u64,
)
    requires
        with_paths(state.paths, root, more).len() > EVENT_STORM_LIMIT,
    ensures
        state.after_event(root, unclear, more, now).batch().full_rescan,
        state.after_event(root, unclear, more, now).batch().paths.len() == 0,
{
    let after = state.after_event(root, unclear, more, now);
    let order = order::stable_order_exists(path_keys(after.paths));
}

proof fn lemma_with_paths(paths: Seq<Seq<u8>>, root: Seq<u8>, more: Seq<FilePath>, path: Seq<u8>)
    ensures
        holds_path(paths, path) ==> holds_path(with_paths(paths, root, more), path),
        path::path_starts_with(path, root) && (exists|i: int|
            0 <= i < more.len() && path::same_path(resolved(root, (#[trigger] more[i])@), path))
            ==> holds_path(with_paths(paths, root, more), path),
    decreases more.len(),
{
    if more.len() > 0 {
        let less = more.drop_last();
        let before = with_paths(paths, root, less);
        let after = with_paths(paths, root, more);
        let full = resolved(root, more.last()@);
        lemma_with_paths(paths, root, less, path);
        if holds_path(before, path) {
            let i = choose|i: int| 0 <= i < before.len() && path::same_path(#[trigger] before[i], path);
            assert(after[i] == before[i]);
        }
        if path::path_starts_with(path, root) && (exists|i: int|
            0 <= i < more.len() && path::same_path(resolved(root, (#[trigger] more[i])@), path)) {
            let i = choose|i: int|
                0 <= i < more.len() && path::same_path(resolved(root, (#[trigger] more[i])@), path);
            if i < less.len() {
                assert(less[i] == more[i]);
            } else if holds_path(before, full) {
                let k = choose|k: int|
                    0 <= k < before.len() && path::same_path(#[trigger] before[k], full);
                assert(after[k] == before[k]);
            } else {
                assert(after[before.len() as int] == full);
            }
        }
    }
}

/// A change below the root is reported with the next batch, unless the whole
/// root is to be scanned anyway.
pub proof fn no_change_is_missed(
    state: AccumulatorModel,
    root: Seq<u8>,
    unclear: bool,
    more: Seq<FilePath>,
    now: u64,
    path: Seq<u8>,
)
    requires
        holds_path(state.paths, path) || (path::path_starts_with(path, root) && exists|i: int|
            0 <= i < more.len() && path::same_path(resolved(root, (#[trigger] more[i])@), path)),
    ensures
        ({
            let batch = state.after_event(root, unclear, more, now).batch();
            batch.full_rescan || holds_path(batch.paths, path)
        }),
{
    let after = state.after_event(root, unclear, more, now);
    lemma_with_paths(state.paths, root, more, path);
    if !after.full_rescan {
        order::sorting_keeps_the_items(after.paths, path_keys(after.paths));
        let i = choose|i: int|
            0 <= i < after.paths.len() && path::same_path(#[trigger] after.paths[i], path);
        assert(after.paths.contains(after.paths[i]));
        assert(after.batch().paths.contains(after.paths[i]));
        let k = choose|k: int|
            0 <= k < after.batch().paths.len() && after.batch().paths[k] == after.paths[i];
        assert(path::same_path(after.batch().paths[k], path));
    }
}

proof fn lemma_below_root(paths: Seq<Seq<u8>>, root: Seq<u8>, more: Seq<FilePath>)
    requires
        forall|i: int| 0 <= i < paths.len() ==> path::path_starts_with(#[trigger] paths[i], root),
    ensures
        forall|i: int|
            0 <= i < with_paths(paths, root, more).len() ==> path::path_starts_with(
                #[trigger] with_paths(paths, root, more)[i],
                root,
            ),
    decreases more.len(),
{
    if more.len() > 0 {
        let before = with_paths(paths, root, more.drop_last());
        let after = with_paths(paths, root, more);
        lemma_below_root(paths, root, more.drop_last());
        assert forall|i: int| 0 <= i < after.len() implies path::path_starts_with(
            #[trigger] after[i],
            root,
        ) by {
            if i < before.len() {
                assert(after[i] == before[i]);
            }
        }
    }
}

/// Changes outside the root are never reported.
pub proof fn reported_paths_lie_below_the_root(
    state: AccumulatorModel,
    root: Seq<u8>,
    unclear: bool,
    more: Seq<FilePath>,
    now: u64,
    i: int,
)
    requires
        forall|k: int|
            0 <= k < state.paths.len() ==> path::path_starts_with(#[trigger] state.paths[k], root),
        0 <= i < state.after_event(root, unclear, more, now).batch().paths.len(),
    ensures
        path::path_starts_with(
            state.after_event(root, unclear, more, now).batch().paths[i],
            root,
        ),
{
    let after = state.after_event(root, unclear, more, now);
    lemma_below_root(state.paths, root, more);
    let sorted = after.batch().paths;
    order::sorting_keeps_the_items(after.paths, path_keys(after.paths));
    assert(sorted.contains(sorted[i]));
    let k = choose|k: int| 0 <= k < after.paths.len() && after.paths[k] == sorted[i];
    assert(path::path_starts_with(after.paths[k], root));
}

/// A batch is given out once as much time has passed since its first event as
/// the pause asks for, and no sooner.
pub proof fn batches_wait_for_the_pause(state: AccumulatorModel, debounce: u64, now: u64)
    ensures
        state.first_event is None ==> !state.is_ready(debounce, now),
        state.first_event is Some ==> (state.is_ready(debounce, now) <==> debounce == 0 || now
            >= state.first_event->0 + debounce),
{
}

/// The pause is counted from the first event: later ones do not put it off.
pub proof fn later_events_do_not_put_a_batch_off(
    state: AccumulatorModel,
    root: Seq<u8>,
    unclear: bool,
    more: Seq<FilePath>,
    message: Seq<char>,
    now: u64,
)
    ensures
        state.first_event is Some ==> state.after_event(root, unclear, more, now).first_event
            == state.first_event && state.after_error(message, now).first_event
            == state.first_event,
        state.first_event is None ==> state.after_event(root, unclear, more, now).first_event
            == Some(now) && state.after_error(message, now).first_event == Some(now),
{
}

proof fn lemma_with_paths_length(paths: Seq<Seq<u8>>, root: Seq<u8>, more: Seq<FilePath>)
    ensures
        paths.len() <= with_paths(paths, root, more).len() <= paths.len() + more.len(),
        forall|k: int|
            0 <= k < paths.len() ==> #[trigger] with_paths(paths, root, more)[k] == paths[k],
        forall|k: int|
            #![trigger with_paths(paths, root, more)[k]]
            paths.len() <= k < with_paths(paths, root, more).len() ==> exists|i: int|
                0 <= i < more.len() && with_paths(paths, root, more)[k] == resolved(
                    root,
                    (#[trigger] more[i])@,
                ),
    decreases more.len(),
{
    if more.len() > 0 {
        let front = more.drop_last();
        lemma_with_paths_length(paths, root, front);
        let before = with_paths(paths, root, front);
        let after = with_paths(paths, root, more);
        assert forall|k: int|
            #![trigger after[k]]
            paths.len() <= k < after.len() implies exists|i: int|
            0 <= i < more.len() && after[k] == resolved(root, (#[trigger] more[i])@) by {
            if k < before.len() {
                assert(after[k] == before[k]);
                let i = choose|i: int|
                    0 <= i < front.len() && before[k] == resolved(root, (#[trigger] front[i])@);
                assert(more[i] == front[i]);
            } else {
                assert(after[k] == resolved(root, more.last()@));
                assert(more[more.len() - 1] == more.last());
            }
        }
        assert forall|k: int| 0 <= k < paths.len() implies #[trigger] after[k] == paths[k] by {
            assert(before[k] == paths[k]);
        }
    }
}

/// Up to 1,000 events with up to 1,000 paths are kept one by one: the paths that
/// were there stay, the others come from the event. A full rescan is asked for
/// where one was asked for already or the event does not tell what it changed.
pub proof fn few_events_are_kept_one_by_one(
    state: AccumulatorModel,
    root: Seq<u8>,
    unclear: bool,
    more: Seq<FilePath>,
    now: u64,
)
    requires
        state.events < 1_000,
        state.paths.len() + more.len() <= 1_000,
    ensures
        ({
            let after = state.after_event(root, unclear, more, now);
            &&& after.events == state.events + 1
            &&& after.full_rescan <==> state.full_rescan || unclear
            &&& after.warning == state.warning
            &&& state.paths.len() <= after.paths.len()
            &&& forall|k: int|
                0 <= k < state.paths.len() ==> #[trigger] after.paths[k] == state.paths[k]
            &&& forall|k: int|
                #![trigger after.paths[k]]
                state.paths.len() <= k < after.paths.len() ==> exists|i: int|
                    0 <= i < more.len() && after.paths[k] == resolved(root, (#[trigger] more[i])@)
        }),
{
    lemma_with_paths_length(state.paths, root, more);
}

/// After 1,000 events the next one ends in a full rescan with no paths.
pub proof fn a_thousand_events_are_the_most(
    state: AccumulatorModel,
    root: Seq<u8>,
    unclear: bool,
    more: Seq<FilePath>,
    now: u64,
)
    requires
        state.events >= 1_000,
    ensures
        ({
            let after = state.after_event(root, unclear, more, now);
            &&& after.full_rescan
            &&& after.paths.len() == 0
            &&& after.warning is Some
            &&& after.events >= state.events
        }),
{
}

/// A failure of the watch asks for a full rescan, says what went wrong and keeps
/// the paths.
pub proof fn a_failed_watch_asks_for_a_rescan(
    state: AccumulatorModel,
    message: Seq<char>,
    now: u64,
)
    ensures
        ({
            let after = state.after_error(message, now);
            &&& after.full_rescan
            &&& after.warning == Some("Watcher warning: "@ + message)
            &&& after.paths == state.paths && after.events == state.events
        }),
{
}

/// A batch holds the paths that were collected, in the order of paths, with the
/// wish for a rescan and the warning.
pub proof fn batches_hold_what_was_collected(state: AccumulatorModel, i: int, j: int)
    requires
        state.paths.len() <= usize::MAX,
    ensures
        state.batch().full_rescan == state.full_rescan,
        state.batch().warning == state.warning,
        state.batch().paths.len() == state.paths.len(),
        forall|path: Seq<u8>| #[trigger]
            state.batch().paths.contains(path) <==> state.paths.contains(path),
        0 <= i < j < state.paths.len() ==> order::key_le(
            path::path_key(state.batch().paths[i]),
            path::path_key(state.batch().paths[j]),
        ),
{
    let keys = path_keys(state.paths);
    order::sorting_keeps_the_items(state.paths, keys);
    if 0 <= i < j < state.paths.len() {
        order::sorting_orders_the_items(state.paths, keys, i, j);
        order::stable_order_exists(keys);
    }
}

} // verus!
