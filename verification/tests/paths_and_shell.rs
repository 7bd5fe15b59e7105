use ru_shell::shell::{PathMeta, Shell};

fn shell_at(home: &str, cwd: &str) -> Shell {
    Shell::new(String::from(home), String::from(cwd))
}

#[test]
fn resolve_absolute_input_is_kept() {
    let sh = shell_at("/home/u", "/home/u/work");
    assert_eq!(sh.resolve_path("/etc/hosts"), "/etc/hosts");
}

#[test]
fn resolve_empty_input_is_home() {
    let sh = shell_at("/home/u", "/var");
    assert_eq!(sh.resolve_path(""), "/home/u");
    assert_eq!(sh.resolve_path("   "), "/home/u");
}

#[test]
fn resolve_tilde_prefix_becomes_home() {
    let sh = shell_at("/home/u", "/var");
    assert_eq!(sh.resolve_path("~/notes"), "/home/u/notes");
    assert_eq!(sh.resolve_path("~"), "/home/u");
}

#[test]
fn resolve_relative_joins_cwd() {
    let sh = shell_at("/home/u", "/home/u/work");
    assert_eq!(sh.resolve_path("src"), "/home/u/work/src");
    assert_eq!(sh.resolve_path("./src"), "/home/u/work/src");
}

#[test]
fn resolve_relative_at_root_has_single_slash() {
    let sh = shell_at("/home/u", "/");
    assert_eq!(sh.resolve_path("etc"), "/etc");
}

#[test]
fn resolve_parent_pops_one_segment() {
    let sh = shell_at("/home/u", "/home/u/work");
    assert_eq!(sh.resolve_path(".."), "/home/u");
    assert_eq!(sh.resolve_path("../docs"), "/home/u/docs");
}

#[test]
fn resolve_parent_of_top_level_is_root() {
    let sh = shell_at("/home/u", "/home");
    assert_eq!(sh.resolve_path(".."), "/");
}

#[test]
fn descend_then_parent_returns_to_start_for_all_input_shapes() {
    // A single-level descent followed by `..` restores the absolute
    // working directory, whether the descent came from a relative,
    // absolute, `~`-prefixed or `../x`-shaped argument.
    for descend in ["sub", "/home/u/work/sub", "~/work/sub", "../work/sub"] {
        let mut sh = shell_at("/home/u", "/home/u/work");
        let before = sh.pwd();
        assert!(sh.cd(descend, PathMeta::Dir).is_ok());
        assert_eq!(sh.pwd(), "/home/u/work/sub");
        assert!(sh.cd("..", PathMeta::Dir).is_ok());
        assert_eq!(sh.pwd(), before);
    }
}

#[test]
fn cd_failure_leaves_state_unchanged() {
    let mut sh = shell_at("/home/u", "/home/u/work");
    let cwd = sh.pwd();
    let prompt = sh.get_prompt();
    let r = sh.cd("missing", PathMeta::Missing);
    assert_eq!(
        r.unwrap_err(),
        "ru-shell: cd: /home/u/work/missing: No such file or directory"
    );
    assert_eq!(sh.pwd(), cwd);
    assert_eq!(sh.get_prompt(), prompt);
    let r2 = sh.cd("afile", PathMeta::NotDir);
    assert_eq!(r2.unwrap_err(), "ru-shell: cd: /home/u/work/afile: Not a directory");
    assert_eq!(sh.pwd(), cwd);
}

#[test]
fn cd_success_updates_both_forms() {
    let mut sh = shell_at("/home/u", "/var");
    assert!(sh.cd("~/work", PathMeta::Dir).is_ok());
    assert_eq!(sh.pwd(), "/home/u/work");
    assert_eq!(sh.get_prompt(), "\u{1b}[1;34mru-shell\u{1b}[0m:\u{1b}[1;32m~/work\u{1b}[0m$ ");
}

#[test]
fn prompt_and_history_path() {
    let sh = shell_at("/home/u", "/home/u");
    assert_eq!(sh.history_file_path(), "/home/u/.rushistory");
    assert_eq!(sh.get_prompt(), "\u{1b}[1;34mru-shell\u{1b}[0m:\u{1b}[1;32m~\u{1b}[0m$ ");
}

#[test]
fn history_skips_blank_commands() {
    let mut sh = shell_at("/home/u", "/home/u");
    sh.add_to_history(String::from("ls -l"));
    sh.add_to_history(String::from("   "));
    sh.add_to_history(String::from("pwd"));
    assert_eq!(sh.get_history(), &vec![String::from("ls -l"), String::from("pwd")]);
    sh.load_history(vec![String::from("echo hi"), String::from(""), String::from("cd /")]);
    assert_eq!(
        sh.get_history(),
        &vec![
            String::from("ls -l"),
            String::from("pwd"),
            String::from("echo hi"),
            String::from("cd /")
        ]
    );
}

#[test]
fn error_prefixes_only_shell_level_reports() {
    let sh = shell_at("/h", "/h");
    assert_eq!(sh.error("cd: too many arguments", true), "ru-shell: cd: too many arguments");
    assert_eq!(sh.error("cp: something", false), "cp: something");
}

#[test]
fn echo_joins_arguments_with_spaces() {
    let out = Shell::handle_echo_command(vec![
        String::from("a"),
        String::from("b c"),
        String::from("d"),
    ]);
    assert_eq!(out, "a b c d\n");
    assert_eq!(Shell::handle_echo_command(Vec::new()), "\n");
    assert_eq!(ru_shell::echo::echoln("hi"), "hi\n");
}

#[test]
fn parse_args_handles_quotes_and_escapes() {
    let args = ru_shell::util::parse_args(" cp \"a file\" b\\ c last ").unwrap();
    assert_eq!(
        args,
        vec![
            String::from("cp"),
            String::from("a file"),
            String::from("b c"),
            String::from("last")
        ]
    );
    assert_eq!(ru_shell::util::parse_args("").unwrap(), Vec::<String>::new());
    assert_eq!(ru_shell::util::parse_args("   ").unwrap(), Vec::<String>::new());
}

#[test]
fn parse_args_reports_unclosed_quotes_and_trailing_backslash() {
    let e = ru_shell::util::parse_args("echo \"open").unwrap_err();
    assert_eq!(e.message(), "unclosed quotes");
    let e2 = ru_shell::util::parse_args("echo x\\").unwrap_err();
    assert_eq!(e2.message(), "trailing backslash");
}
