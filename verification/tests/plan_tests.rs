use ru_shell::fs_model::FsSpace;
use ru_shell::plan::{confirm_removals, plan_changes, FsAction};

fn path_of(a: &FsAction) -> String {
    match a {
        FsAction::MakeDir { path, .. } => path.clone(),
        FsAction::WriteFile { path, .. } => path.clone(),
        FsAction::RemoveFile { path } => path.clone(),
        FsAction::RemoveDir { path } => path.clone(),
    }
}

#[test]
fn plan_writes_parents_first_and_removals_children_first() {
    let mut before = FsSpace::new();
    assert!(before.make_dir_node("/x", 0o40755).is_ok());
    assert!(before.make_dir_node("/x/y", 0o40755).is_ok());
    assert!(before.write_file("/x/y/old", b"gone".to_vec(), 0o100644).is_ok());
    let mut after = FsSpace::new();
    assert!(after.make_dir_node("/a", 0o40755).is_ok());
    assert!(after.make_dir_node("/a/b", 0o40700).is_ok());
    assert!(after.write_file("/a/b/f", b"new".to_vec(), 0o100600).is_ok());
    let plan = plan_changes(&before, &after);
    let writes: Vec<String> = plan.writes.iter().map(path_of).collect();
    assert_eq!(
        writes,
        vec![String::from("/a"), String::from("/a/b"), String::from("/a/b/f")]
    );
    match &plan.writes[2] {
        FsAction::WriteFile { content, mode, .. } => {
            assert_eq!(content, &b"new".to_vec());
            assert_eq!(*mode, 0o100600);
        },
        _ => panic!("expected a file write"),
    }
    let removals: Vec<String> = plan.removals.iter().map(path_of).collect();
    assert_eq!(
        removals,
        vec![String::from("/x/y/old"), String::from("/x/y"), String::from("/x")]
    );
    assert!(matches!(plan.removals[0], FsAction::RemoveFile { .. }));
    assert!(matches!(plan.removals[2], FsAction::RemoveDir { .. }));
}

#[test]
fn plan_holds_only_what_changed() {
    let mut before = FsSpace::new();
    assert!(before.make_dir_node("/d", 0o40755).is_ok());
    assert!(before.write_file("/d/same", b"keep".to_vec(), 0o100644).is_ok());
    assert!(before.write_file("/d/edit", b"old".to_vec(), 0o100644).is_ok());
    let mut after = FsSpace::new();
    assert!(after.make_dir_node("/d", 0o40755).is_ok());
    assert!(after.write_file("/d/same", b"keep".to_vec(), 0o100644).is_ok());
    assert!(after.write_file("/d/edit", b"new".to_vec(), 0o100644).is_ok());
    let plan = plan_changes(&before, &after);
    let writes: Vec<String> = plan.writes.iter().map(path_of).collect();
    assert_eq!(writes, vec![String::from("/d/edit")]);
    assert!(plan.removals.is_empty());
}

#[test]
fn unchanged_spaces_need_no_actions() {
    let mut before = FsSpace::new();
    assert!(before.write_file("/f", b"x".to_vec(), 0o100644).is_ok());
    let mut after = FsSpace::new();
    assert!(after.write_file("/f", b"x".to_vec(), 0o100644).is_ok());
    let plan = plan_changes(&before, &after);
    assert!(plan.writes.is_empty());
    assert!(plan.removals.is_empty());
}

#[test]
fn removals_run_only_when_every_write_landed() {
    let removals = vec![
        FsAction::RemoveFile { path: String::from("/src/file") },
        FsAction::RemoveDir { path: String::from("/src") },
    ];
    let kept = confirm_removals(removals, false);
    assert!(kept.is_empty());
    let removals = vec![FsAction::RemoveFile { path: String::from("/src/file") }];
    let go = confirm_removals(removals, true);
    assert_eq!(go.len(), 1);
}
