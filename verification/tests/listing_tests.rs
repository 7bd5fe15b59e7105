use ru_shell::ls::{
    file_mode_string, get_file_type, list_directory, parse_ls_args, DirQuery, LsFlag, RawEntry,
};
use ru_shell::shell::Shell;

fn entry(name: &str, mode: u32) -> RawEntry {
    RawEntry {
        name: String::from(name),
        mode,
        nlink: 1,
        owner: String::from("user"),
        group: String::from("user"),
        size: 42,
        mtime: 1700000000,
    }
}

const REG: u32 = 0o100644;
const DIRM: u32 = 0o40755;

#[test]
fn mode_string_renders_each_bit() {
    assert_eq!(file_mode_string(0o100644), "-rw-r--r--");
    assert_eq!(file_mode_string(0o40755), "drwxr-xr-x");
    assert_eq!(file_mode_string(0o120777), "lrwxrwxrwx");
    assert_eq!(file_mode_string(0o100000), "----------");
    assert_eq!(file_mode_string(0o10644), "prw-r--r--");
}

#[test]
fn file_type_characters() {
    assert_eq!(get_file_type(0o40000), 'd');
    assert_eq!(get_file_type(0o120000), 'l');
    assert_eq!(get_file_type(0o20000), 'c');
    assert_eq!(get_file_type(0o60000), 'b');
    assert_eq!(get_file_type(0o10000), 'p');
    assert_eq!(get_file_type(0o140000), 's');
    assert_eq!(get_file_type(0o100644), '-');
}

#[test]
fn flag_parsing_recognizes_short_and_long_forms() {
    assert_eq!(LsFlag::from_char('l'), Some(LsFlag::LongFormat));
    assert_eq!(LsFlag::from_char('a'), Some(LsFlag::All));
    assert_eq!(LsFlag::from_char('F'), Some(LsFlag::Classify));
    assert_eq!(LsFlag::from_char('x'), None);
    assert_eq!(LsFlag::from_long_option("long"), Some(LsFlag::LongFormat));
    assert_eq!(LsFlag::from_long_option("all"), Some(LsFlag::All));
    assert_eq!(LsFlag::from_long_option("classify"), Some(LsFlag::Classify));
    assert_eq!(LsFlag::from_long_option("other"), None);
}

#[test]
fn parse_ls_args_splits_flags_and_paths() {
    let (flags, paths) = parse_ls_args(vec![
        String::from("-la"),
        String::from("dir1"),
        String::from("--classify"),
        String::from("--xx"),
        String::from("--"),
        String::from("dir2"),
        String::from("-l"),
    ]);
    assert_eq!(flags, vec![LsFlag::LongFormat, LsFlag::All, LsFlag::Classify]);
    assert_eq!(paths, vec![String::from("dir1"), String::from("dir2")]);
    let (f2, p2) = parse_ls_args(Vec::new());
    assert!(f2.is_empty());
    assert_eq!(p2, vec![String::from(".")]);
}

#[test]
fn hidden_entries_depend_on_all_flag_and_order_ignores_markup() {
    let entries = vec![
        entry("visible.txt", REG),
        entry(".hidden", REG),
        entry("sub", DIRM),
    ];
    let rows = list_directory(&entries, &vec![]);
    let texts: Vec<String> = rows.iter().map(|r| r.text.clone()).collect();
    // `.hidden` is excluded; `sub` carries colour markup but still sorts
    // under its plain name, so it comes before `visible.txt`.
    assert_eq!(
        texts,
        vec![String::from("\u{1b}[1;34msub\u{1b}[0m"), String::from("visible.txt")]
    );
    let rows_all = list_directory(&entries, &vec![LsFlag::All]);
    let keys: Vec<String> = rows_all.iter().map(|r| r.key.iter().collect()).collect();
    assert_eq!(
        keys,
        vec![String::from(".hidden"), String::from("sub"), String::from("visible.txt")]
    );
}

#[test]
fn sort_is_case_insensitive_on_the_raw_name() {
    let entries = vec![entry("Beta", REG), entry("alpha", REG), entry("Gamma", REG)];
    let rows = list_directory(&entries, &vec![]);
    let texts: Vec<String> = rows.iter().map(|r| r.text.clone()).collect();
    assert_eq!(
        texts,
        vec![String::from("alpha"), String::from("Beta"), String::from("Gamma")]
    );
}

#[test]
fn classify_appends_type_suffixes() {
    let entries = vec![
        entry("prog", 0o100755),
        entry("plain", REG),
        entry("fifo", 0o10644),
        entry("sock", 0o140644),
    ];
    let rows = list_directory(&entries, &vec![LsFlag::Classify]);
    let texts: Vec<String> = rows.iter().map(|r| r.text.clone()).collect();
    assert_eq!(
        texts,
        vec![
            String::from("fifo|"),
            String::from("plain"),
            String::from("prog*"),
            String::from("sock=")
        ]
    );
}

#[test]
fn long_format_lays_out_the_documented_columns() {
    let entries = vec![entry("notes.txt", 0o100640)];
    let rows = list_directory(&entries, &vec![LsFlag::LongFormat]);
    assert_eq!(rows.len(), 1);
    let text = &rows[0].text;
    assert!(text.starts_with("-rw-r----- "));
    assert!(text.ends_with(" notes.txt"));
    // permissions, link count padded to three, owner, group, size padded
    // to eight, and a twelve-character timestamp
    let rest = &text["-rw-r----- ".len()..];
    assert!(rest.starts_with("  1 user user       42 "));
    let stamp = &rest["  1 user user       42 ".len()..];
    assert_eq!(stamp.len(), 12 + 1 + "notes.txt".len());
}

#[test]
fn ls_command_output_for_one_directory() {
    let sh = Shell::new(String::from("/home/u"), String::from("/w"));
    let queries = vec![DirQuery::Entries(vec![entry("b", REG), entry("a", REG)])];
    let out = sh.handle_ls_command(vec![String::from("somedir")], &queries);
    assert_eq!(out, "a\tb\t\n");
}

#[test]
fn ls_command_headers_and_separators_for_several_paths() {
    let sh = Shell::new(String::from("/home/u"), String::from("/w"));
    let queries = vec![
        DirQuery::Entries(vec![entry("a", REG)]),
        DirQuery::NotDir,
        DirQuery::Missing,
        DirQuery::Entries(vec![entry("z", REG)]),
    ];
    let out = sh.handle_ls_command(
        vec![
            String::from("d1"),
            String::from("somefile"),
            String::from("gone"),
            String::from("d2"),
        ],
        &queries,
    );
    assert_eq!(
        out,
        "d1/:\na\t\n\nsomefile/:\n/w/somefile\t\n\ngone/:\nls: cannot access '/w/gone': No such file or directory\nd2/:\nz\t\n"
    );
}

#[test]
fn ls_command_dot_stands_for_the_working_directory() {
    let sh = Shell::new(String::from("/home/u"), String::from("/w"));
    let queries = vec![DirQuery::Missing];
    let out = sh.handle_ls_command(vec![String::from(".")], &queries);
    assert_eq!(out, "ls: cannot access '/w': No such file or directory\n\n");
}

#[test]
fn ls_command_reports_other_failures_with_their_words() {
    let sh = Shell::new(String::from("/home/u"), String::from("/w"));
    let queries = vec![DirQuery::OtherError(String::from(
        "cannot open directory '/x': Permission denied",
    ))];
    let out = sh.handle_ls_command(vec![String::from("/x")], &queries);
    assert_eq!(out, "ls: cannot open directory '/x': Permission denied\n\n");
}
