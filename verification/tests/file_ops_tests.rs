use ru_shell::fs_model::{FsNode, FsSpace};
use ru_shell::shell::Shell;

fn shell() -> Shell {
    Shell::new(String::from("/home/u"), String::from("/w"))
}

fn file(fs: &mut FsSpace, path: &str, bytes: &[u8], mode: u32) {
    assert!(fs.write_file(path, bytes.to_vec(), mode).is_ok());
}

fn dir(fs: &mut FsSpace, path: &str, mode: u32) {
    assert!(fs.make_dir_node(path, mode).is_ok());
}

fn mode_of(fs: &FsSpace, path: &str) -> u32 {
    let k = fs.find(path).expect("path should exist");
    match &fs.objs[k].node {
        FsNode::File { mode, .. } => *mode,
        FsNode::Dir { mode } => *mode,
    }
}

#[test]
fn copy_round_trip_preserves_bytes_and_mode() {
    let sh = shell();
    let mut fs = FsSpace::new();
    file(&mut fs, "/w/a", b"payload", 0o100640);
    let msgs = sh.handle_copy_command(vec![String::from("a"), String::from("b")], &mut fs);
    assert!(msgs.is_empty());
    assert_eq!(fs.read("/w/a").unwrap(), b"payload".to_vec());
    assert_eq!(fs.read("/w/b").unwrap(), b"payload".to_vec());
    assert_eq!(mode_of(&fs, "/w/a"), mode_of(&fs, "/w/b"));
}

#[test]
fn copy_into_directory_appends_basename() {
    let sh = shell();
    let mut fs = FsSpace::new();
    file(&mut fs, "/w/a", b"x", 0o100644);
    dir(&mut fs, "/w/d", 0o40755);
    let msgs = sh.handle_copy_command(vec![String::from("a"), String::from("d")], &mut fs);
    assert!(msgs.is_empty());
    assert_eq!(fs.read("/w/d/a").unwrap(), b"x".to_vec());
}

#[test]
fn recursive_copy_preserves_tree_shape_names_and_contents() {
    let sh = shell();
    let mut fs = FsSpace::new();
    dir(&mut fs, "/w/t", 0o40750);
    dir(&mut fs, "/w/t/sub", 0o40700);
    dir(&mut fs, "/w/t/sub/deep", 0o40755);
    file(&mut fs, "/w/t/f1", b"one", 0o100644);
    file(&mut fs, "/w/t/sub/f2", b"two", 0o100600);
    file(&mut fs, "/w/t/sub/deep/f3", b"three", 0o100444);
    let msgs = sh.handle_copy_command(
        vec![String::from("-r"), String::from("t"), String::from("u")],
        &mut fs,
    );
    assert!(msgs.is_empty());
    assert!(fs.is_dir("/w/u"));
    assert!(fs.is_dir("/w/u/sub"));
    assert!(fs.is_dir("/w/u/sub/deep"));
    assert_eq!(fs.read("/w/u/f1").unwrap(), b"one".to_vec());
    assert_eq!(fs.read("/w/u/sub/f2").unwrap(), b"two".to_vec());
    assert_eq!(fs.read("/w/u/sub/deep/f3").unwrap(), b"three".to_vec());
    assert_eq!(mode_of(&fs, "/w/u/sub"), 0o40700);
    assert_eq!(mode_of(&fs, "/w/u/sub/deep/f3"), 0o100444);
    // the source tree is still intact
    assert_eq!(fs.read("/w/t/sub/f2").unwrap(), b"two".to_vec());
}

#[test]
fn copy_directory_without_recursive_flag_is_skipped() {
    let sh = shell();
    let mut fs = FsSpace::new();
    dir(&mut fs, "/w/t", 0o40755);
    let msgs = sh.handle_copy_command(vec![String::from("t"), String::from("u")], &mut fs);
    assert_eq!(msgs, vec![String::from("cp: -r not specified; omitting directory '/w/t'")]);
    assert!(!fs.exists_path("/w/u"));
}

#[test]
fn copy_missing_source_reports_and_continues() {
    let sh = shell();
    let mut fs = FsSpace::new();
    file(&mut fs, "/w/b", b"ok", 0o100644);
    dir(&mut fs, "/w/d", 0o40755);
    let msgs = sh.handle_copy_command(
        vec![String::from("nope"), String::from("b"), String::from("d")],
        &mut fs,
    );
    assert_eq!(msgs, vec![String::from("cp: cannot stat '/w/nope': No such file or directory")]);
    assert_eq!(fs.read("/w/d/b").unwrap(), b"ok".to_vec());
}

#[test]
fn copy_multiple_sources_to_non_directory_fails_whole_command() {
    let sh = shell();
    let mut fs = FsSpace::new();
    file(&mut fs, "/w/a", b"1", 0o100644);
    file(&mut fs, "/w/b", b"2", 0o100644);
    let before = fs.objs.len();
    let msgs = sh.handle_copy_command(
        vec![String::from("a"), String::from("b"), String::from("c")],
        &mut fs,
    );
    assert_eq!(msgs, vec![String::from("cp: target '/w/c' is not a directory")]);
    // zero file writes happened
    assert_eq!(fs.objs.len(), before);
    assert!(!fs.exists_path("/w/c"));
}

#[test]
fn copy_missing_operand_aborts_with_usage() {
    let sh = shell();
    let mut fs = FsSpace::new();
    let msgs = sh.handle_copy_command(vec![String::from("a")], &mut fs);
    assert_eq!(
        msgs,
        vec![
            String::from("ru-shell: cp: missing file operand"),
            String::from("Usage: cp [-r] SOURCE... DESTINATION")
        ]
    );
}

#[test]
fn copy_to_denied_path_reports_refusal() {
    let sh = shell();
    let mut fs = FsSpace::new();
    file(&mut fs, "/w/a", b"x", 0o100644);
    fs.deny(String::from("/w/b"));
    let msgs = sh.handle_copy_command(vec![String::from("a"), String::from("b")], &mut fs);
    assert_eq!(msgs, vec![String::from("cp: cannot write '/w/b': Operation not permitted")]);
    assert!(!fs.exists_path("/w/b"));
}

#[test]
fn move_by_rename_moves_whole_tree() {
    let sh = shell();
    let mut fs = FsSpace::new();
    dir(&mut fs, "/w/t", 0o40755);
    file(&mut fs, "/w/t/f", b"data", 0o100644);
    let msgs = sh.handle_move_command(vec![String::from("t"), String::from("u")], &mut fs, true);
    assert!(msgs.is_empty());
    assert!(!fs.exists_path("/w/t"));
    assert!(!fs.exists_path("/w/t/f"));
    assert!(fs.is_dir("/w/u"));
    assert_eq!(fs.read("/w/u/f").unwrap(), b"data".to_vec());
}

#[test]
fn cross_device_move_falls_back_to_copy_then_delete() {
    let sh = shell();
    let mut fs = FsSpace::new();
    file(&mut fs, "/w/x", b"cargo", 0o100600);
    // the rename is forced to fail, as across filesystems
    let msgs = sh.handle_move_command(vec![String::from("x"), String::from("y")], &mut fs, false);
    assert!(msgs.is_empty());
    assert!(!fs.exists_path("/w/x"));
    assert_eq!(fs.read("/w/y").unwrap(), b"cargo".to_vec());
    assert_eq!(mode_of(&fs, "/w/y"), 0o100600);
}

#[test]
fn failed_fallback_copy_leaves_source_untouched() {
    let sh = shell();
    let mut fs = FsSpace::new();
    file(&mut fs, "/w/x", b"precious", 0o100600);
    fs.deny(String::from("/w/y"));
    let msgs = sh.handle_move_command(vec![String::from("x"), String::from("y")], &mut fs, false);
    assert_eq!(msgs, vec![String::from("mv: cannot write '/w/y': Operation not permitted")]);
    assert_eq!(fs.read("/w/x").unwrap(), b"precious".to_vec());
    assert_eq!(mode_of(&fs, "/w/x"), 0o100600);
    assert!(!fs.exists_path("/w/y"));
}

#[test]
fn move_onto_itself_reports_same_file_and_changes_nothing() {
    let sh = shell();
    let mut fs = FsSpace::new();
    file(&mut fs, "/w/x", b"keep", 0o100644);
    let msgs = sh.handle_move_command(vec![String::from("x"), String::from("x")], &mut fs, true);
    assert_eq!(msgs, vec![String::from("mv: '/w/x' and '/w/x' are the same file")]);
    assert_eq!(fs.read("/w/x").unwrap(), b"keep".to_vec());
}

#[test]
fn move_missing_operand_aborts_with_usage() {
    let sh = shell();
    let mut fs = FsSpace::new();
    let msgs = sh.handle_move_command(vec![String::from("only")], &mut fs, true);
    assert_eq!(
        msgs,
        vec![
            String::from("ru-shell: mv: missing file operand"),
            String::from("Usage: mv SOURCE... DESTINATION")
        ]
    );
}

#[test]
fn move_multiple_sources_need_directory_target() {
    let sh = shell();
    let mut fs = FsSpace::new();
    file(&mut fs, "/w/a", b"1", 0o100644);
    file(&mut fs, "/w/b", b"2", 0o100644);
    let msgs = sh.handle_move_command(
        vec![String::from("a"), String::from("b"), String::from("c")],
        &mut fs,
        true,
    );
    assert_eq!(msgs, vec![String::from("mv: target '/w/c' is not a directory")]);
    assert!(fs.exists_path("/w/a") && fs.exists_path("/w/b"));
}

#[test]
fn get_destination_path_appends_basename_only_into_directories() {
    let sh = shell();
    let mut fs = FsSpace::new();
    dir(&mut fs, "/w/d", 0o40755);
    assert_eq!(sh.get_destination_path(&fs, "/w/sub/a", "/w/d"), "/w/d/a");
    assert_eq!(sh.get_destination_path(&fs, "/w/sub/a", "/w/plain"), "/w/plain");
}

#[test]
fn mkdir_creates_and_reports_existing() {
    let sh = shell();
    let mut fs = FsSpace::new();
    dir(&mut fs, "/w", 0o40755);
    let msgs = sh.handle_mkdir_command(vec![String::from("d1"), String::from("d2")], &mut fs);
    assert!(msgs.is_empty());
    assert!(fs.is_dir("/w/d1") && fs.is_dir("/w/d2"));
    let again = sh.handle_mkdir_command(vec![String::from("d1")], &mut fs);
    assert_eq!(again, vec![String::from("mkdir: cannot create directory 'd1': File exists")]);
    let none = sh.handle_mkdir_command(Vec::new(), &mut fs);
    assert_eq!(none, vec![String::from("ru-shell: mkdir: missing operand")]);
}

#[test]
fn mkdir_is_not_recursive_and_needs_a_directory_parent() {
    let sh = shell();
    let mut fs = FsSpace::new();
    dir(&mut fs, "/w", 0o40755);
    file(&mut fs, "/w/f", b"x", 0o100644);
    // the parent of the new directory is missing: nothing is created
    let deep = sh.handle_mkdir_command(vec![String::from("no/deep")], &mut fs);
    assert_eq!(
        deep,
        vec![String::from("mkdir: cannot create directory 'no/deep': No such file or directory")]
    );
    assert!(!fs.exists_path("/w/no") && !fs.exists_path("/w/no/deep"));
    // the parent exists but is a file
    let under_file = sh.handle_mkdir_command(vec![String::from("f/sub")], &mut fs);
    assert_eq!(
        under_file,
        vec![String::from("mkdir: cannot create directory 'f/sub': Not a directory")]
    );
    assert!(!fs.exists_path("/w/f/sub"));
    // one argument can create the parent the next one needs
    let chain = sh.handle_mkdir_command(vec![String::from("a"), String::from("a/b")], &mut fs);
    assert!(chain.is_empty());
    assert!(fs.is_dir("/w/a") && fs.is_dir("/w/a/b"));
}

#[test]
fn rm_removes_files_and_guards_directories() {
    let sh = shell();
    let mut fs = FsSpace::new();
    file(&mut fs, "/w/f", b"z", 0o100644);
    dir(&mut fs, "/w/d", 0o40755);
    file(&mut fs, "/w/d/in", b"q", 0o100644);
    let m1 = sh.handle_rm_command(vec![String::from("d")], &mut fs);
    assert_eq!(m1, vec![String::from("rm: cannot remove 'd': Is a directory")]);
    let m2 = sh.handle_rm_command(vec![String::from("gone")], &mut fs);
    assert_eq!(m2, vec![String::from("rm: cannot remove 'gone': No such file or directory")]);
    let m3 = sh.handle_rm_command(vec![String::from("f")], &mut fs);
    assert!(m3.is_empty());
    assert!(!fs.exists_path("/w/f"));
    let m4 = sh.handle_rm_command(vec![String::from("-r"), String::from("d")], &mut fs);
    assert!(m4.is_empty());
    assert!(!fs.exists_path("/w/d") && !fs.exists_path("/w/d/in"));
}

#[test]
fn rmdir_requires_empty_directories() {
    let sh = shell();
    let mut fs = FsSpace::new();
    dir(&mut fs, "/w/d", 0o40755);
    file(&mut fs, "/w/d/in", b"q", 0o100644);
    file(&mut fs, "/w/f", b"q", 0o100644);
    let m1 = sh.handle_rmdir_command(vec![String::from("d")], &mut fs);
    assert_eq!(m1, vec![String::from("rmdir: cannot remove 'd': Directory not empty")]);
    let m2 = sh.handle_rmdir_command(vec![String::from("f")], &mut fs);
    assert_eq!(m2, vec![String::from("rmdir: cannot remove 'f': Not a directory")]);
    // the recursive flag does not turn a file into a removable directory
    let m2b = sh.handle_rmdir_command(vec![String::from("-r"), String::from("f")], &mut fs);
    assert_eq!(m2b, vec![String::from("rmdir: cannot remove 'f': Not a directory")]);
    assert!(fs.exists_path("/w/f"));
    let m3 = sh.handle_rmdir_command(vec![String::from("-r"), String::from("d")], &mut fs);
    assert!(m3.is_empty());
    assert!(!fs.exists_path("/w/d"));
    let m4 = sh.handle_rmdir_command(Vec::new(), &mut fs);
    assert_eq!(m4, vec![String::from("ru-shell: rmdir: missing operand")]);
}

#[test]
fn cat_yields_bytes_or_reports() {
    let sh = shell();
    let mut fs = FsSpace::new();
    file(&mut fs, "/w/f", b"hello\n", 0o100644);
    dir(&mut fs, "/w/d", 0o40755);
    let items = sh.handle_cat_command(
        vec![String::from("f"), String::from("d"), String::from("gone")],
        &fs,
    );
    assert_eq!(items.len(), 3);
    match &items[0] {
        ru_shell::fs_cmds::CatItem::Content(c) => assert_eq!(c, &b"hello\n".to_vec()),
        _ => panic!("expected content"),
    }
    match &items[1] {
        ru_shell::fs_cmds::CatItem::Error(t) => assert_eq!(t, "cat: d: Is a directory"),
        _ => panic!("expected error"),
    }
    match &items[2] {
        ru_shell::fs_cmds::CatItem::Error(t) => {
            assert_eq!(t, "cat: gone: No such file or directory")
        },
        _ => panic!("expected error"),
    }
}
