use std::cell::RefCell;

use macdirstat::delete::{
    delete_parent, move_batch, plan_batch, report_batch, validate_delete_target, BatchPlan,
    DeleteItem, DeleteRequest, DeleteValidationError, Trash,
};
use macdirstat::path::FilePath;
use macdirstat::tree::Tree;

fn path(text: &str) -> FilePath {
    FilePath::from_text(text)
}

#[derive(Default)]
struct MockTrash {
    paths: RefCell<Vec<FilePath>>,
    refused: Option<FilePath>,
}

impl Trash for MockTrash {
    fn delete(&self, path: &FilePath) -> Result<(), String> {
        if self.refused.as_ref() == Some(path) {
            return Err("the Trash is full".to_owned());
        }
        self.paths.borrow_mut().push(path.clone());
        Ok(())
    }
}

fn check(root: &FilePath, target: &FilePath, exists: bool) -> Result<FilePath, DeleteValidationError> {
    validate_delete_target(
        root,
        target,
        Ok(target.parent().unwrap()),
        if exists { Ok(()) } else { Err("No such file or directory (os error 2)".to_owned()) },
    )
}

fn request(root: &FilePath, names: &[&str]) -> DeleteRequest {
    let tree = Tree::new(root.clone());
    DeleteRequest {
        generation: 1,
        root: root.clone(),
        items: names
            .iter()
            .map(|name| DeleteItem { node_id: Some(tree.root_id), path: root.join(&path(name)) })
            .collect(),
    }
}

#[test]
fn only_requested_paths_are_sent_to_trash() {
    let mock = MockTrash::default();
    let root = path("/root");
    let request = request(&root, &["first", "second"]);
    let verdicts: Vec<_> =
        request.items.iter().map(|item| check(&root, &item.path, true)).collect();
    let result = move_batch(&mock, request, &verdicts);
    assert!(result.failures.is_empty());
    assert_eq!(result.moved.len(), 2);
    assert_eq!(result.generation, 1);
    assert_eq!(*mock.paths.borrow(), [path("/root/first"), path("/root/second")]);
}

#[test]
fn batch_validation_happens_before_any_item_is_trashed() {
    let mock = MockTrash::default();
    let root = path("/root");
    let request = request(&root, &["valid", "missing"]);
    let verdicts = vec![
        check(&root, &request.items[0].path, true),
        check(&root, &request.items[1].path, false),
    ];
    let result = move_batch(&mock, request, &verdicts);
    assert!(result.moved.is_empty());
    assert_eq!(result.failures.len(), 2);
    assert!(mock.paths.borrow().is_empty());
}

#[test]
fn one_failed_move_does_not_keep_the_others_back() {
    let root = path("/root");
    let mock = MockTrash { refused: Some(path("/root/first")), ..MockTrash::default() };
    let request = request(&root, &["first", "second"]);
    let verdicts: Vec<_> =
        request.items.iter().map(|item| check(&root, &item.path, true)).collect();
    let result = move_batch(&mock, request, &verdicts);
    assert_eq!(result.moved.len(), 1);
    assert_eq!(result.moved[0].path, path("/root/second"));
    assert_eq!(result.failures.len(), 1);
    assert_eq!(result.failures[0].path, path("/root/first"));
    assert_eq!(result.failures[0].message, "the Trash is full");
}

#[test]
fn rejects_root_and_outside_paths() {
    let root = path("/root");
    assert!(matches!(
        validate_delete_target(&root, &root, Ok(path("/")), Ok(())),
        Err(DeleteValidationError::Root)
    ));
    assert!(matches!(
        validate_delete_target(&root, &path("/outside/file"), Ok(path("/outside")), Ok(())),
        Err(DeleteValidationError::OutsideRoot)
    ));
}

#[test]
fn accepts_symlink_itself_without_following_target() {
    let root = path("/root");
    let link = path("/root/outside-link");
    assert_eq!(check(&root, &link, true).unwrap(), link);
}

#[test]
fn a_parent_that_resolves_outside_is_rejected() {
    let root = path("/root");
    let target = path("/root/link/file");
    assert!(matches!(
        validate_delete_target(&root, &target, Ok(path("/elsewhere")), Ok(())),
        Err(DeleteValidationError::OutsideRoot)
    ));
    assert_eq!(
        validate_delete_target(&root, &target, Ok(path("/root/real")), Ok(())).unwrap(),
        path("/root/real/file")
    );
    assert!(matches!(
        validate_delete_target(&root, &target, Err("denied".to_owned()), Ok(())),
        Err(DeleteValidationError::Parent(_))
    ));
    assert!(matches!(
        validate_delete_target(&root, &target, Ok(path("/root/link")), Err("gone".to_owned())),
        Err(DeleteValidationError::Missing(_))
    ));
}

#[test]
fn a_target_needs_a_name() {
    let root = path("/root");
    assert!(matches!(
        delete_parent(&root, &path("/root/a/..")),
        Err(DeleteValidationError::MissingName)
    ));
    assert_eq!(delete_parent(&root, &path("/root/a/b")).unwrap(), path("/root/a"));
}

#[test]
fn errors_are_told_in_words() {
    for error in [
        DeleteValidationError::Root,
        DeleteValidationError::MissingName,
        DeleteValidationError::OutsideRoot,
    ] {
        assert!(!error.message().is_empty());
    }
    assert!(DeleteValidationError::Parent("denied".to_owned()).message().contains("denied"));
    assert!(DeleteValidationError::Missing("gone".to_owned()).message().contains("gone"));
}

#[test]
fn a_plan_moves_all_or_nothing() {
    let root = path("/root");
    let request = request(&root, &["a", "b"]);
    let valid: Vec<_> = request.items.iter().map(|item| check(&root, &item.path, true)).collect();
    assert!(matches!(plan_batch(&request.items, &valid), BatchPlan::Move(paths) if paths.len() == 2));
    let mixed = vec![check(&root, &request.items[0].path, true), Err(DeleteValidationError::Root)];
    assert!(matches!(
        plan_batch(&request.items, &mixed),
        BatchPlan::Refuse(failures) if failures.len() == 2
    ));
}

#[test]
fn a_batch_is_reported_as_its_moves_ended() {
    let root = path("/root");
    let valid = |request: &DeleteRequest| -> Vec<_> {
        request.items.iter().map(|item| check(&root, &item.path, true)).collect()
    };
    let first = request(&root, &["a", "b"]);
    let verdicts = valid(&first);
    let result = report_batch(first, &verdicts, vec![Err("full".to_owned()), Ok(())]);
    assert_eq!(result.generation, 1);
    assert_eq!(result.moved.len(), 1);
    assert_eq!(result.moved[0].path, path("/root/b"));
    assert_eq!(result.failures.len(), 1);
    assert_eq!(result.failures[0].path, path("/root/a"));
    assert_eq!(result.failures[0].message, "full");

    let second = request(&root, &["a", "b"]);
    let verdicts = vec![Err(DeleteValidationError::Root), check(&root, &path("/root/b"), true)];
    let result = report_batch(second, &verdicts, Vec::new());
    assert!(result.moved.is_empty());
    assert_eq!(result.failures[0].path, path("/root/a"));
    assert_eq!(result.failures[0].message, DeleteValidationError::Root.message());
    assert_eq!(
        result.failures[1].message,
        "Batch cancelled because another item failed validation"
    );
}
