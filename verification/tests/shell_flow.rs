use myshell::myshell::mcommands::Builtin;
use myshell::myshell::{CommandType, DescTriple, MyShell, Pipeline};

fn shell() -> MyShell {
    MyShell::new(String::from("/usr/local/bin/myshell"))
}

#[test]
fn blank_and_comment_lines_yield_no_pipeline() {
    let sh = shell();
    assert!(sh.prepare_line("").unwrap().is_none());
    assert!(sh.prepare_line("   ").unwrap().is_none());
    assert!(sh.prepare_line("# just a comment").unwrap().is_none());
}

#[test]
fn builtin_and_external_stages_are_classified() {
    let sh = shell();
    let p = sh.prepare_line("mecho hi | wc").unwrap().unwrap();
    assert_eq!(p.steps.len(), 2);
    assert_eq!(p.types[0], CommandType::Internal);
    assert_eq!(p.types[1], CommandType::External);
}

#[test]
fn assignment_stage_is_classified_local_var() {
    let sh = shell();
    let p = sh.prepare_line("x=5").unwrap().unwrap();
    assert_eq!(p.types[0], CommandType::LocalVar);
    let p = sh.prepare_line("plain command").unwrap().unwrap();
    assert_eq!(p.types[0], CommandType::External);
}

#[test]
fn substitution_happens_during_line_preparation() {
    let mut sh = shell();
    sh.set_local_variable(&vec!["greeting=hello".to_string()]);
    let p = sh.prepare_line("mecho \"$greeting\"").unwrap().unwrap();
    assert_eq!(p.steps[0], vec!["mecho", "hello"]);
}

#[test]
fn lone_script_token_gets_the_shell_prepended() {
    let sh = shell();
    let p = sh.prepare_line("setup.msh").unwrap().unwrap();
    assert_eq!(p.steps[0], vec!["myshell", "setup.msh"]);
    let p = sh.prepare_line("run setup.msh").unwrap().unwrap();
    assert_eq!(p.steps[0], vec!["run", "setup.msh"]);
}

#[test]
fn unbalanced_line_is_rejected_with_a_parse_error() {
    let sh = shell();
    assert_eq!(sh.prepare_line("echo 'oops").unwrap_err(), "myshell: parse error");
    assert_eq!(sh.prepare_line("echo \"oops").unwrap_err(), "myshell: parse error");
    assert_eq!(sh.prepare_line("echo $(oops").unwrap_err(), "myshell: parse error");
}

#[test]
fn subshell_spans_are_recorded_per_token() {
    let sh = shell();
    let p = sh.prepare_line("outer $(inner cmd) tail").unwrap().unwrap();
    assert_eq!(p.subshell_comm.len(), 1);
    let entries = &p.subshell_comm[0];
    assert_eq!(entries.len(), 1);
    assert_eq!(entries[0].0, 1);
    assert_eq!(entries[0].1, vec![(0, 11)]);
}

#[test]
fn alias_substitution_is_a_documented_no_op() {
    let sh = shell();
    let cmd = vec!["mecho".to_string(), "hi".to_string()];
    assert_eq!(sh.substitute_aliases(Ok(cmd.clone())), Ok(cmd));
    let err: Result<Vec<String>, String> = Err("boom".to_string());
    assert_eq!(sh.substitute_aliases(err.clone()), err);
}

#[test]
fn unbalanced_subshell_inside_a_token_is_a_parse_error() {
    let p = Pipeline {
        steps: vec![vec!["$(open".to_string()]],
        ioe_descriptors: vec![DescTriple::standard()],
        types: vec![CommandType::External],
        subshell_comm: vec![vec![]],
    };
    assert_eq!(MyShell::preprocess_subshells(p).unwrap_err(), "myshell: parse error");
}

#[test]
fn builtin_dispatch_picks_by_first_token() {
    let one = |name: &str| vec![name.to_string()];
    assert_eq!(MyShell::call_mcommand(&one("merrno")), Some(Builtin::Merrno));
    assert_eq!(MyShell::call_mcommand(&one("mpwd")), Some(Builtin::Mpwd));
    assert_eq!(MyShell::call_mcommand(&one("mcd")), Some(Builtin::Mcd));
    assert_eq!(MyShell::call_mcommand(&one(".")), Some(Builtin::RunScript));
    assert_eq!(MyShell::call_mcommand(&one("mecho")), Some(Builtin::Mecho));
    assert_eq!(MyShell::call_mcommand(&one("mexport")), Some(Builtin::Mexport));
    assert_eq!(MyShell::call_mcommand(&one("mexit")), Some(Builtin::Mexit));
    // `alias` classifies as internal but dispatches to nothing
    assert_eq!(MyShell::call_mcommand(&one("alias")), None);
    assert_eq!(MyShell::call_mcommand(&one("ls")), None);
}

#[test]
fn fresh_shell_state() {
    let sh = shell();
    assert_eq!(sh.last_exit_code, 0);
    assert!(!sh.time_to_exit);
    assert_eq!(sh.exec_path, "/usr/local/bin/myshell");
}
