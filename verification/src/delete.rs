//! Moving entries to the Trash: what may be moved, and in what order.
use vstd::prelude::*;
use vstd::string::StringExecFns;

use crate::path;
use crate::path::FilePath;
use crate::tree::NodeId;

verus! {

/// Where entries go when they are deleted.
pub trait Trash {
    fn delete(&self, path: &FilePath) -> (result: Result<(), String>);
}

/// An entry that is to be moved to the Trash.
#[derive(Debug)]
pub struct DeleteItem {
    pub node_id: Option<NodeId>,
    pub path: FilePath,
}

impl Clone for DeleteItem {
    fn clone(&self) -> (copy: Self)
        ensures
            copy == *self,
    {
        DeleteItem { node_id: self.node_id, path: self.path.clone() }
    }
}

#[derive(Debug)]
pub struct DeleteRequest {
    pub generation: u64,
    pub root: FilePath,
    pub items: Vec<DeleteItem>,
}

#[derive(Debug)]
pub struct DeleteFailure {
    pub path: FilePath,
    pub message: String,
}

pub struct FailureModel {
    pub path: FilePath,
    pub message: Seq<char>,
}

pub open spec fn failure_views(failures: Seq<DeleteFailure>) -> Seq<FailureModel> {
    Seq::new(
        failures.len(),
        |i: int| FailureModel { path: failures[i].path, message: failures[i].message@ },
    )
}

#[derive(Debug)]
pub struct DeleteResult {
    pub generation: u64,
    pub moved: Vec<DeleteItem>,
    pub failures: Vec<DeleteFailure>,
}

pub struct ResultModel {
    pub generation: u64,
    pub moved: Seq<DeleteItem>,
    pub failures: Seq<FailureModel>,
}

impl View for DeleteResult {
    type V = ResultModel;

    open spec fn view(&self) -> ResultModel {
        ResultModel {
            generation: self.generation,
            moved: self.moved@,
            failures: failure_views(self.failures@),
        }
    }
}

/// Why an entry may not be moved to the Trash.
#[derive(Debug)]
pub enum DeleteValidationError {
    Root,
    MissingName,
    OutsideRoot,
    Parent(String),
    Missing(String),
}

pub enum RefusalModel {
    Root,
    MissingName,
    OutsideRoot,
    Parent(Seq<char>),
    Missing(Seq<char>),
}

impl View for DeleteValidationError {
    type V = RefusalModel;

    open spec fn view(&self) -> RefusalModel {
        match *self {
            DeleteValidationError::Root => RefusalModel::Root,
            DeleteValidationError::MissingName => RefusalModel::MissingName,
            DeleteValidationError::OutsideRoot => RefusalModel::OutsideRoot,
            DeleteValidationError::Parent(message) => RefusalModel::Parent(message@),
            DeleteValidationError::Missing(message) => RefusalModel::Missing(message@),
        }
    }
}

impl RefusalModel {
    pub open spec fn text(self) -> Seq<char> {
        match self {
            RefusalModel::Root => "The scan root cannot be moved to Trash"@,
            RefusalModel::MissingName => "The selected path has no valid file name"@,
            RefusalModel::OutsideRoot => "The selected path is outside the current scan root"@,
            RefusalModel::Parent(message) => "Cannot verify the parent directory: "@ + message,
            RefusalModel::Missing(message) => "The selected item no longer exists: "@ + message,
        }
    }
}

impl DeleteValidationError {
    /// The refusal in words.
    pub fn message(&self) -> (text: String)
        ensures
            text@ == self@.text(),
    {
        match self {
            DeleteValidationError::Root => "The scan root cannot be moved to Trash".to_owned(),
            DeleteValidationError::MissingName => {
                "The selected path has no valid file name".to_owned()
            },
            DeleteValidationError::OutsideRoot => {
                "The selected path is outside the current scan root".to_owned()
            },
            DeleteValidationError::Parent(message) => {
                let mut text = "Cannot verify the parent directory: ".to_owned();
                text.append(message.as_str());
                text
            },
            DeleteValidationError::Missing(message) => {
                let mut text = "The selected item no longer exists: ".to_owned();
                text.append(message.as_str());
                text
            },
        }
    }
}

/// The directory that an entry lies in, to be resolved, or why the entry may
/// not be moved.
pub open spec fn parent_to_resolve(root: Seq<u8>, target: Seq<u8>) -> Result<
    Seq<u8>,
    RefusalModel,
> {
    if path::same_path(target, root) {
        Err(RefusalModel::Root)
    } else {
        match (path::file_name_of(target), path::parent_of(target)) {
            (Some(name), Some(parent)) => Ok(parent),
            _ => Err(RefusalModel::MissingName),
        }
    }
}

/// The path that is to be moved, once the parent has been resolved to the
/// directory that it names on disk.
pub open spec fn path_to_move(
    root: Seq<u8>,
    target: Seq<u8>,
    resolved: Result<Seq<u8>, Seq<char>>,
) -> Result<Seq<u8>, RefusalModel> {
    match parent_to_resolve(root, target) {
        Err(refusal) => Err(refusal),
        Ok(_) => match resolved {
            Err(message) => Err(RefusalModel::Parent(message)),
            Ok(parent) => if path::path_starts_with(parent, root) {
                Ok(path::joined_path(parent, path::file_name_of(target)->0))
            } else {
                Err(RefusalModel::OutsideRoot)
            },
        },
    }
}

/// The path that is to be moved, once it is known whether it exists.
pub open spec fn verdict(
    root: Seq<u8>,
    target: Seq<u8>,
    resolved: Result<Seq<u8>, Seq<char>>,
    existing: Result<(), Seq<char>>,
) -> Result<Seq<u8>, RefusalModel> {
    match path_to_move(root, target, resolved) {
        Err(refusal) => Err(refusal),
        Ok(path) => match existing {
            Err(message) => Err(RefusalModel::Missing(message)),
            Ok(_) => Ok(path),
        },
    }
}

pub open spec fn path_result(result: Result<FilePath, String>) -> Result<Seq<u8>, Seq<char>> {
    match result {
        Ok(path) => Ok(path@),
        Err(message) => Err(message@),
    }
}

pub open spec fn unit_result(result: Result<(), String>) -> Result<(), Seq<char>> {
    match result {
        Ok(_) => Ok(()),
        Err(message) => Err(message@),
    }
}

/// Whether a validation has the stated outcome.
pub open spec fn validates(
    result: Result<FilePath, DeleteValidationError>,
    stated: Result<Seq<u8>, RefusalModel>,
) -> bool {
    match result {
        Ok(path) => stated matches Ok(other) && other == path@,
        Err(refusal) => stated matches Err(other) && other == refusal@,
    }
}

/// The directory that must be resolved before an entry may be moved.
pub fn delete_parent(root: &FilePath, target: &FilePath) -> (parent: Result<
    FilePath,
    DeleteValidationError,
>)
    ensures
        validates(parent, parent_to_resolve(root@, target@)),
{
    if target.same(root) {
        return Err(DeleteValidationError::Root);
    }
    match (target.file_name(), target.parent()) {
        (Some(_), Some(parent)) => Ok(parent),
        _ => Err(DeleteValidationError::MissingName),
    }
}

/// The path whose existence must be checked before an entry may be moved.
pub fn delete_path(
    root: &FilePath,
    target: &FilePath,
    resolved: Result<FilePath, String>,
) -> (path: Result<FilePath, DeleteValidationError>)
    ensures
        validates(path, path_to_move(root@, target@, path_result(resolved))),
{
    if target.same(root) {
        return Err(DeleteValidationError::Root);
    }
    let (name, _) = match (target.file_name(), target.parent()) {
        (Some(name), Some(parent)) => (name, parent),
        _ => {
            return Err(DeleteValidationError::MissingName);
        },
    };
    match resolved {
        Err(message) => Err(DeleteValidationError::Parent(message)),
        Ok(parent) => {
            if parent.starts_with(root) {
                Ok(parent.join(&name))
            } else {
                Err(DeleteValidationError::OutsideRoot)
            }
        },
    }
}

/// The path that is to be moved to the Trash for an entry. `resolved` is the
/// parent with all links followed; `existing` tells whether the path exists,
/// links not followed.
pub fn validate_delete_target(
    root: &FilePath,
    target: &FilePath,
    resolved: Result<FilePath, String>,
    existing: Result<(), String>,
) -> (path: Result<FilePath, DeleteValidationError>)
    ensures
        validates(path, verdict(root@, target@, path_result(resolved), unit_result(existing))),
{
    match delete_path(root, target, resolved) {
        Err(refusal) => Err(refusal),
        Ok(path) => match existing {
            Err(message) => Err(DeleteValidationError::Missing(message)),
            Ok(_) => Ok(path),
        },
    }
}

/// What is moved to the Trash lies below the scan root, and is not the root.
pub proof fn moved_paths_lie_below_the_root(
    root: Seq<u8>,
    target: Seq<u8>,
    resolved: Result<Seq<u8>, Seq<char>>,
    existing: Result<(), Seq<char>>,
)
    ensures
        verdict(root, target, resolved, existing) matches Ok(moved) ==> path::path_starts_with(
            moved,
            root,
        ) && !path::same_path(moved, root),
{
    if let Ok(moved) = verdict(root, target, resolved, existing) {
        let parent = resolved->Ok_0;
        let name = path::file_name_of(target)->0;
        path::file_names_are_plain(target);
        path::joining_a_name_appends_it(parent, name);
        path::joined_path_starts_with_base(parent, name, root);
    }
}

/// Only the last component of a target is taken as it is: what is moved has the
/// target's name, so a symbolic link is moved itself.
pub proof fn moved_paths_keep_their_name(
    root: Seq<u8>,
    target: Seq<u8>,
    resolved: Result<Seq<u8>, Seq<char>>,
    existing: Result<(), Seq<char>>,
)
    ensures
        verdict(root, target, resolved, existing) matches Ok(moved) ==> path::components(moved)
            == path::components(resolved->Ok_0).push(path::file_name_of(target)->0),
{
    if let Ok(moved) = verdict(root, target, resolved, existing) {
        path::file_names_are_plain(target);
        path::joining_a_name_appends_it(resolved->Ok_0, path::file_name_of(target)->0);
    }
}

pub open spec fn verdict_views(verdicts: Seq<Result<FilePath, DeleteValidationError>>) -> Seq<
    Result<Seq<u8>, RefusalModel>,
> {
    Seq::new(
        verdicts.len(),
        |i: int|
            match verdicts[i] {
                Ok(path) => Ok(path@),
                Err(refusal) => Err(refusal@),
            },
    )
}

/// Whether all items of a batch may be moved.
pub open spec fn all_valid(verdicts: Seq<Result<Seq<u8>, RefusalModel>>) -> bool {
    forall|i: int| 0 <= i < verdicts.len() ==> #[trigger] verdicts[i] is Ok
}

/// The items that may not be moved, each with the reason.
pub open spec fn refused(
    items: Seq<DeleteItem>,
    verdicts: Seq<Result<Seq<u8>, RefusalModel>>,
) -> Seq<FailureModel>
    decreases items.len(),
{
    if items.len() == 0 {
        Seq::empty()
    } else {
        let rest = refused(items.drop_last(), verdicts.drop_last());
        match verdicts.last() {
            Err(refusal) => rest.push(
                FailureModel { path: items.last().path, message: refusal.text() },
            ),
            Ok(_) => rest,
        }
    }
}

/// The items that could have been moved, but for the others.
pub open spec fn withheld(
    items: Seq<DeleteItem>,
    verdicts: Seq<Result<Seq<u8>, RefusalModel>>,
) -> Seq<FailureModel>
    decreases items.len(),
{
    if items.len() == 0 {
        Seq::empty()
    } else {
        let rest = withheld(items.drop_last(), verdicts.drop_last());
        match verdicts.last() {
            Ok(_) => rest.push(
                FailureModel {
                    path: items.last().path,
                    message: "Batch cancelled because another item failed validation"@,
                },
            ),
            Err(_) => rest,
        }
    }
}

/// The items that were moved.
pub open spec fn succeeded(
    items: Seq<DeleteItem>,
    outcomes: Seq<Result<(), Seq<char>>>,
) -> Seq<DeleteItem>
    decreases items.len(),
{
    if items.len() == 0 {
        Seq::empty()
    } else {
        let rest = succeeded(items.drop_last(), outcomes.drop_last());
        if outcomes.last() is Ok {
            rest.push(items.last())
        } else {
            rest
        }
    }
}

/// The items that could not be moved.
pub open spec fn failed(items: Seq<DeleteItem>, outcomes: Seq<Result<(), Seq<char>>>) -> Seq<
    FailureModel,
>
    decreases items.len(),
{
    if items.len() == 0 {
        Seq::empty()
    } else {
        let rest = failed(items.drop_last(), outcomes.drop_last());
        match outcomes.last() {
            Err(message) => rest.push(FailureModel { path: items.last().path, message }),
            Ok(_) => rest,
        }
    }
}

/// The outcome of a batch. Nothing is moved unless every item may be; then
/// each item is moved or fails on its own.
pub open spec fn batch_result(
    generation: u64,
    items: Seq<DeleteItem>,
    verdicts: Seq<Result<Seq<u8>, RefusalModel>>,
    outcomes: Seq<Result<(), Seq<char>>>,
) -> ResultModel {
    if all_valid(verdicts) {
        ResultModel {
            generation,
            moved: succeeded(items, outcomes),
            failures: failed(items, outcomes),
        }
    } else {
        ResultModel {
            generation,
            moved: Seq::empty(),
            failures: refused(items, verdicts) + withheld(items, verdicts),
        }
    }
}

/// The paths that a batch moves to the Trash, in order, or why it moves none.
pub enum BatchPlan {
    Move(Vec<FilePath>),
    Refuse(Vec<DeleteFailure>),
}

fn push_failure(failures: &mut Vec<DeleteFailure>, path: &FilePath, message: String)
    ensures
        failure_views(final(failures)@) == failure_views(old(failures)@).push(
            FailureModel { path: *path, message: message@ },
        ),
        final(failures)@.len() == old(failures)@.len() + 1,
{
    let ghost before = failures@;
    failures.push(DeleteFailure { path: path.clone(), message });
    assert(failure_views(failures@) =~= failure_views(before).push(
        FailureModel { path: *path, message: message@ },
    ));
}

/// Decides a batch from what validation says of each item: all items are
/// looked at before the first one is moved.
pub fn plan_batch(
    items: &Vec<DeleteItem>,
    verdicts: &Vec<Result<FilePath, DeleteValidationError>>,
) -> (plan: BatchPlan)
    requires
        items@.len() == verdicts@.len(),
    ensures
        match plan {
            BatchPlan::Move(paths) => {
                &&& all_valid(verdict_views(verdicts@))
                &&& paths@.len() == items@.len()
                &&& forall|i: int|
                    0 <= i < paths@.len() ==> verdict_views(verdicts@)[i] == Ok::<_, RefusalModel>(
                        (#[trigger] paths@[i])@,
                    )
            },
            BatchPlan::Refuse(failures) => {
                &&& !all_valid(verdict_views(verdicts@))
                &&& failure_views(failures@) == refused(items@, verdict_views(verdicts@))
                    + withheld(items@, verdict_views(verdicts@))
            },
        },
{
    let ghost stated = verdict_views(verdicts@);
    let mut paths: Vec<FilePath> = Vec::new();
    let mut failures: Vec<DeleteFailure> = Vec::new();
    let mut i: usize = 0;
    assert(failure_views(failures@) =~= Seq::empty());
    while i < items.len()
        invariant
            i <= items@.len() == verdicts@.len(),
            stated == verdict_views(verdicts@),
            failure_views(failures@) == refused(items@.take(i as int), stated.take(i as int)),
            (failures@.len() == 0) == all_valid(stated.take(i as int)),
            failures@.len() == 0 ==> paths@.len() == i,
            failures@.len() == 0 ==> forall|j: int|
                0 <= j < i ==> stated[j] == Ok::<_, RefusalModel>((#[trigger] paths@[j])@),
        decreases items@.len() - i,
    {
        proof {
            assert(items@.take(i + 1).drop_last() =~= items@.take(i as int));
            assert(stated.take(i + 1).drop_last() =~= stated.take(i as int));
            let more = stated.take(i + 1);
            let less = stated.take(i as int);
            assert(more[i as int] == stated[i as int]);
            assert(all_valid(more) == (all_valid(less) && stated[i as int] is Ok)) by {
                if all_valid(less) && stated[i as int] is Ok {
                    assert forall|j: int| 0 <= j < more.len() implies #[trigger] more[j] is Ok by {
                        if j < i {
                            assert(less[j] is Ok);
                        }
                    }
                }
                if all_valid(more) {
                    assert forall|j: int| 0 <= j < less.len() implies #[trigger] less[j] is Ok by {
                        assert(more[j] is Ok);
                    }
                    assert(more[i as int] is Ok);
                }
            }
        }
        match &verdicts[i] {
            Ok(path) => {
                if failures.len() == 0 {
                    paths.push(path.clone());
                }
            },
            Err(refusal) => {
                let message = refusal.message();
                push_failure(&mut failures, &items[i].path, message);
            },
        }
        i += 1;
    }
    assert(items@.take(i as int) =~= items@);
    assert(stated.take(i as int) =~= stated);
    if failures.len() == 0 {
        return BatchPlan::Move(paths);
    }
    let ghost first = failure_views(failures@);
    let mut k: usize = 0;
    assert(first + withheld(items@.take(0), stated.take(0)) =~= first);
    while k < items.len()
        invariant
            k <= items@.len() == verdicts@.len(),
            stated == verdict_views(verdicts@),
            failure_views(failures@) == first + withheld(
                items@.take(k as int),
                stated.take(k as int),
            ),
        decreases items@.len() - k,
    {
        assert(items@.take(k + 1).drop_last() =~= items@.take(k as int));
        assert(stated.take(k + 1).drop_last() =~= stated.take(k as int));
        assert(stated.take(k + 1).last() == stated[k as int]);
        match &verdicts[k] {
            Ok(_) => {
                push_failure(
                    &mut failures,
                    &items[k].path,
                    "Batch cancelled because another item failed validation".to_owned(),
                );
            },
            Err(_) => {},
        }
        k += 1;
        assert(failure_views(failures@) =~= first + withheld(
            items@.take(k as int),
            stated.take(k as int),
        ));
    }
    assert(items@.take(k as int) =~= items@);
    assert(stated.take(k as int) =~= stated);
    BatchPlan::Refuse(failures)
}

pub open spec fn outcome_views(outcomes: Seq<Result<(), String>>) -> Seq<Result<(), Seq<char>>> {
    Seq::new(outcomes.len(), |i: int| unit_result(outcomes[i]))
}

/// Whether an outcome is one that the Trash gives for a path.
pub open spec fn is_outcome_of<T: Trash>(
    trash: &T,
    path: Seq<u8>,
    outcome: Result<(), String>,
) -> bool {
    exists|target: FilePath|
        target@ == path && #[trigger] call_ensures(T::delete, (trash, &target), outcome)
}

/// Whether outcomes are what the Trash gives for paths, one by one.
pub open spec fn are_outcomes_of<T: Trash>(
    trash: &T,
    paths: Seq<Seq<u8>>,
    outcomes: Seq<Result<(), String>>,
) -> bool {
    &&& outcomes.len() == paths.len()
    &&& forall|i: int|
        0 <= i < paths.len() ==> is_outcome_of(trash, #[trigger] paths[i], outcomes[i])
}

/// The paths that are handed to the Trash, in the order of the items: those that
/// validation gave, or none where it refused an item.
pub open spec fn paths_to_move(verdicts: Seq<Result<Seq<u8>, RefusalModel>>) -> Seq<Seq<u8>> {
    if all_valid(verdicts) {
        Seq::new(verdicts.len(), |i: int| verdicts[i]->Ok_0)
    } else {
        Seq::empty()
    }
}

/// Hands paths to the Trash, one after the other.
fn try_all<T: Trash>(trash: &T, paths: &Vec<FilePath>) -> (outcomes: Vec<Result<(), String>>)
    ensures
        outcomes@.len() == paths@.len(),
        forall|i: int|
            0 <= i < outcomes@.len() ==> is_outcome_of(trash, (#[trigger] paths@[i])@, outcomes@[i]),
{
    let mut outcomes: Vec<Result<(), String>> = Vec::new();
    let mut i: usize = 0;
    while i < paths.len()
        invariant
            i <= paths@.len(),
            outcomes@.len() == i,
            forall|k: int|
                0 <= k < i ==> is_outcome_of(trash, (#[trigger] paths@[k])@, outcomes@[k]),
        decreases paths@.len() - i,
    {
        let outcome = trash.delete(&paths[i]);
        assert(is_outcome_of(trash, paths@[i as int]@, outcome));
        outcomes.push(outcome);
        i += 1;
    }
    outcomes
}

/// What is reported of items whose moves ended in the given way.
fn report_moves(generation: u64, items: &Vec<DeleteItem>, outcomes: Vec<Result<(), String>>) -> (result:
    DeleteResult)
    requires
        outcomes@.len() == items@.len(),
    ensures
        result@ == (ResultModel {
            generation,
            moved: succeeded(items@, outcome_views(outcomes@)),
            failures: failed(items@, outcome_views(outcomes@)),
        }),
{
    let ghost stated = outcome_views(outcomes@);
    let mut moved: Vec<DeleteItem> = Vec::new();
    let mut failures: Vec<DeleteFailure> = Vec::new();
    let mut i: usize = 0;
    assert(failure_views(failures@) =~= Seq::empty());
    assert(moved@ =~= Seq::empty());
    while i < items.len()
        invariant
            i <= items@.len() == outcomes@.len(),
            stated == outcome_views(outcomes@),
            moved@ == succeeded(items@.take(i as int), stated.take(i as int)),
            failure_views(failures@) == failed(items@.take(i as int), stated.take(i as int)),
        decreases items@.len() - i,
    {
        assert(items@.take(i + 1).drop_last() =~= items@.take(i as int));
        assert(stated.take(i + 1).drop_last() =~= stated.take(i as int));
        assert(stated.take(i + 1).last() == unit_result(outcomes@[i as int]));
        match &outcomes[i] {
            Ok(_) => {
                moved.push(items[i].clone());
            },
            Err(message) => {
                push_failure(&mut failures, &items[i].path, message.clone());
            },
        }
        i += 1;
    }
    assert(items@.take(i as int) =~= items@);
    assert(stated.take(i as int) =~= stated);
    DeleteResult { generation, moved, failures }
}

/// What is reported of a batch whose moves ended in the given way. A batch with
/// an item that may not be moved has no moves.
pub fn report_batch(
    request: DeleteRequest,
    verdicts: &Vec<Result<FilePath, DeleteValidationError>>,
    outcomes: Vec<Result<(), String>>,
) -> (result: DeleteResult)
    requires
        request.items@.len() == verdicts@.len(),
        outcomes@.len() == paths_to_move(verdict_views(verdicts@)).len(),
    ensures
        result@ == batch_result(
            request.generation,
            request.items@,
            verdict_views(verdicts@),
            outcome_views(outcomes@),
        ),
{
    let items = &request.items;
    match plan_batch(items, verdicts) {
        BatchPlan::Refuse(failures) => {
            let moved: Vec<DeleteItem> = Vec::new();
            assert(moved@ =~= Seq::empty());
            DeleteResult { generation: request.generation, moved, failures }
        },
        BatchPlan::Move(_) => report_moves(request.generation, items, outcomes),
    }
}

/// Moves the items of a request to the Trash, once all of them are valid, and
/// reports each as its move ended.
pub fn move_batch<T: Trash>(
    trash: &T,
    request: DeleteRequest,
    verdicts: &Vec<Result<FilePath, DeleteValidationError>>,
) -> (result: DeleteResult)
    requires
        request.items@.len() == verdicts@.len(),
    ensures
        exists|outcomes: Seq<Result<(), String>>|
            {
                &&& #[trigger] are_outcomes_of(
                    trash,
                    paths_to_move(verdict_views(verdicts@)),
                    outcomes,
                )
                &&& result@ == batch_result(
                    request.generation,
                    request.items@,
                    verdict_views(verdicts@),
                    outcome_views(outcomes),
                )
            },
{
    let ghost stated = verdict_views(verdicts@);
    let outcomes: Vec<Result<(), String>> = match plan_batch(&request.items, verdicts) {
        BatchPlan::Refuse(_) => Vec::new(),
        BatchPlan::Move(paths) => {
            let outcomes = try_all(trash, &paths);
            proof {
                assert forall|i: int| 0 <= i < paths_to_move(stated).len() implies is_outcome_of(
                    trash,
                    #[trigger] paths_to_move(stated)[i],
                    outcomes@[i],
                ) by {
                    assert(stated[i] == Ok::<_, RefusalModel>(paths@[i]@));
                    assert(is_outcome_of(trash, paths@[i]@, outcomes@[i]));
                }
            }
            outcomes
        },
    };
    assert(are_outcomes_of(trash, paths_to_move(stated), outcomes@));
    report_batch(request, verdicts, outcomes)
}

/// One item that may not be moved keeps the whole batch where it is, and every
/// item is reported.
pub proof fn one_refusal_stops_the_batch(
    generation: u64,
    items: Seq<DeleteItem>,
    verdicts: Seq<Result<Seq<u8>, RefusalModel>>,
    outcomes: Seq<Result<(), Seq<char>>>,
    at: int,
)
    requires
        items.len() == verdicts.len(),
        0 <= at < verdicts.len(),
        verdicts[at] is Err,
    ensures
        batch_result(generation, items, verdicts, outcomes).moved.len() == 0,
        batch_result(generation, items, verdicts, outcomes).failures.len() == items.len(),
{
    assert(!all_valid(verdicts));
    lemma_refused_and_withheld(items, verdicts);
}

proof fn lemma_refused_and_withheld(
    items: Seq<DeleteItem>,
    verdicts: Seq<Result<Seq<u8>, RefusalModel>>,
)
    requires
        items.len() == verdicts.len(),
    ensures
        refused(items, verdicts).len() + withheld(items, verdicts).len() == items.len(),
    decreases items.len(),
{
    if items.len() > 0 {
        lemma_refused_and_withheld(items.drop_last(), verdicts.drop_last());
    }
}

/// Every item of a batch is reported once, as moved or as failed.
pub proof fn every_item_is_reported(
    generation: u64,
    items: Seq<DeleteItem>,
    verdicts: Seq<Result<Seq<u8>, RefusalModel>>,
    outcomes: Seq<Result<(), Seq<char>>>,
)
    requires
        items.len() == verdicts.len(),
        items.len() == outcomes.len(),
    ensures
        ({
            let result = batch_result(generation, items, verdicts, outcomes);
            result.moved.len() + result.failures.len() == items.len()
        }),
{
    lemma_refused_and_withheld(items, verdicts);
    lemma_moved_and_failed(items, outcomes);
}

proof fn lemma_moved_and_failed(items: Seq<DeleteItem>, outcomes: Seq<Result<(), Seq<char>>>)
    requires
        items.len() == outcomes.len(),
    ensures
        succeeded(items, outcomes).len() + failed(items, outcomes).len() == items.len(),
    decreases items.len(),
{
    if items.len() > 0 {
        lemma_moved_and_failed(items.drop_last(), outcomes.drop_last());
    }
}

proof fn lemma_item_reported(
    items: Seq<DeleteItem>,
    outcomes: Seq<Result<(), Seq<char>>>,
    i: int,
)
    requires
        items.len() == outcomes.len(),
        0 <= i < items.len(),
    ensures
        match outcomes[i] {
            Ok(_) => succeeded(items, outcomes).contains(items[i]),
            Err(message) => failed(items, outcomes).contains(
                FailureModel { path: items[i].path, message },
            ),
        },
    decreases items.len(),
{
    let less = items.drop_last();
    let fewer = outcomes.drop_last();
    let moved = succeeded(items, outcomes);
    let failures = failed(items, outcomes);
    if i == items.len() - 1 {
        match outcomes[i] {
            Ok(_) => {
                assert(moved[moved.len() - 1] == items[i]);
            },
            Err(message) => {
                assert(failures[failures.len() - 1] == FailureModel {
                    path: items[i].path,
                    message,
                });
            },
        }
    } else {
        lemma_item_reported(less, fewer, i);
        match outcomes[i] {
            Ok(_) => {
                let k = choose|k: int|
                    0 <= k < succeeded(less, fewer).len() && succeeded(less, fewer)[k] == items[i];
                assert(moved[k] == items[i]);
            },
            Err(message) => {
                let failure = FailureModel { path: items[i].path, message };
                let k = choose|k: int|
                    0 <= k < failed(less, fewer).len() && failed(less, fewer)[k] == failure;
                assert(failures[k] == failure);
            },
        }
    }
}

/// In a batch of valid items each item is reported as its own move ended: as
/// moved, or as failed for the reason that the Trash gave.
pub proof fn items_are_reported_as_their_moves_ended(
    generation: u64,
    items: Seq<DeleteItem>,
    verdicts: Seq<Result<Seq<u8>, RefusalModel>>,
    outcomes: Seq<Result<(), Seq<char>>>,
    i: int,
)
    requires
        all_valid(verdicts),
        items.len() == outcomes.len(),
        0 <= i < items.len(),
    ensures
        ({
            let result = batch_result(generation, items, verdicts, outcomes);
            match outcomes[i] {
                Ok(_) => result.moved.contains(items[i]),
                Err(message) => result.failures.contains(
                    FailureModel { path: items[i].path, message },
                ),
            }
        }),
{
    lemma_item_reported(items, outcomes, i);
}

/// A path is cleared for the trash if it is not the root, has a name, its parent
/// was resolved to a place below the root, and it is still there. What is moved
/// is the name in that place.
pub proof fn only_what_lies_below_the_root_is_moved(
    root: Seq<u8>,
    target: Seq<u8>,
    resolved: Result<Seq<u8>, Seq<char>>,
    existing: Result<(), Seq<char>>,
)
    ensures
        ({
            let named = path::file_name_of(target) is Some && path::parent_of(target) is Some;
            let decided = verdict(root, target, resolved, existing);
            &&& decided is Ok <==> !path::same_path(target, root) && named && resolved is Ok
                && path::path_starts_with(resolved->Ok_0, root) && existing is Ok
            &&& decided is Ok ==> decided->Ok_0 == path::joined_path(
                resolved->Ok_0,
                path::file_name_of(target)->0,
            )
        }),
{
}

/// The first thing that stands against a move is what is said of it.
pub proof fn refusals_say_what_is_wrong(
    root: Seq<u8>,
    target: Seq<u8>,
    resolved: Result<Seq<u8>, Seq<char>>,
    existing: Result<(), Seq<char>>,
)
    ensures
        ({
            let named = path::file_name_of(target) is Some && path::parent_of(target) is Some;
            let decided = verdict(root, target, resolved, existing);
            let is_root = path::same_path(target, root);
            &&& is_root ==> decided == Err::<Seq<u8>, _>(RefusalModel::Root)
            &&& !is_root && !named ==> decided == Err::<Seq<u8>, _>(RefusalModel::MissingName)
            &&& !is_root && named && resolved is Err ==> decided == Err::<Seq<u8>, _>(
                RefusalModel::Parent(resolved->Err_0),
            )
            &&& !is_root && named && resolved is Ok && !path::path_starts_with(
                resolved->Ok_0,
                root,
            ) ==> decided == Err::<Seq<u8>, _>(RefusalModel::OutsideRoot)
            &&& !is_root && named && resolved is Ok && path::path_starts_with(resolved->Ok_0, root)
                && existing is Err ==> decided == Err::<Seq<u8>, _>(
                RefusalModel::Missing(existing->Err_0),
            )
        }),
{
}

proof fn lemma_refused(
    items: Seq<DeleteItem>,
    verdicts: Seq<Result<Seq<u8>, RefusalModel>>,
    i: int,
)
    requires
        items.len() == verdicts.len(),
        0 <= i < items.len(),
    ensures
        verdicts[i] is Err ==> refused(items, verdicts).contains(
            FailureModel { path: items[i].path, message: verdicts[i]->Err_0.text() },
        ),
        verdicts[i] is Ok ==> withheld(items, verdicts).contains(
            FailureModel {
                path: items[i].path,
                message: "Batch cancelled because another item failed validation"@,
            },
        ),
    decreases items.len(),
{
    let first = refused(items.drop_last(), verdicts.drop_last());
    let second = withheld(items.drop_last(), verdicts.drop_last());
    if i < items.len() - 1 {
        lemma_refused(items.drop_last(), verdicts.drop_last(), i);
        assert(items.drop_last()[i] == items[i]);
        assert(verdicts.drop_last()[i] == verdicts[i]);
        if verdicts[i] is Err {
            let said = FailureModel { path: items[i].path, message: verdicts[i]->Err_0.text() };
            let k = choose|k: int| 0 <= k < first.len() && first[k] == said;
            assert(refused(items, verdicts)[k] == said);
        } else {
            let said = FailureModel {
                path: items[i].path,
                message: "Batch cancelled because another item failed validation"@,
            };
            let k = choose|k: int| 0 <= k < second.len() && second[k] == said;
            assert(withheld(items, verdicts)[k] == said);
        }
    } else {
        match verdicts[i] {
            Err(refusal) => {
                assert(refused(items, verdicts)[first.len() as int] == (FailureModel {
                    path: items[i].path,
                    message: refusal.text(),
                }));
            },
            Ok(_) => {
                assert(withheld(items, verdicts)[second.len() as int].path == items[i].path);
            },
        }
    }
}

/// Where one item is refused, each refused one is reported with its reason, and
/// each other one as called off.
pub proof fn a_stopped_batch_says_why(
    generation: u64,
    items: Seq<DeleteItem>,
    verdicts: Seq<Result<Seq<u8>, RefusalModel>>,
    outcomes: Seq<Result<(), Seq<char>>>,
    at: int,
    i: int,
)
    requires
        items.len() == verdicts.len(),
        0 <= at < verdicts.len(),
        verdicts[at] is Err,
        0 <= i < items.len(),
    ensures
        ({
            let result = batch_result(generation, items, verdicts, outcomes);
            &&& result.generation == generation
            &&& verdicts[i] is Err ==> result.failures.contains(
                FailureModel { path: items[i].path, message: verdicts[i]->Err_0.text() },
            )
            &&& verdicts[i] is Ok ==> result.failures.contains(
                FailureModel {
                    path: items[i].path,
                    message: "Batch cancelled because another item failed validation"@,
                },
            )
        }),
{
    lemma_refused(items, verdicts, i);
    let first = refused(items, verdicts);
    let second = withheld(items, verdicts);
    let all = batch_result(generation, items, verdicts, outcomes).failures;
    assert(!all_valid(verdicts)) by {
        assert(verdicts[at] is Err);
    }
    assert(all == first + second);
    if verdicts[i] is Err {
        let said = FailureModel { path: items[i].path, message: verdicts[i]->Err_0.text() };
        let k = choose|k: int| 0 <= k < first.len() && first[k] == said;
        assert(all[k] == said);
    } else {
        let said = FailureModel {
            path: items[i].path,
            message: "Batch cancelled because another item failed validation"@,
        };
        let k = choose|k: int| 0 <= k < second.len() && second[k] == said;
        assert(all[first.len() + k] == said);
    }
}

} // verus!
