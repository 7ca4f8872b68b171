use myshell::myshell::preprocessing::{apply_redirection, resolve_stage_redirection};
use myshell::myshell::{DescTriple, MyShell};

fn tokens(words: &[&str]) -> Vec<String> {
    words.iter().map(|w| w.to_string()).collect()
}

#[test]
fn combined_form_resolves_to_one_file_for_both_outputs() {
    let cmd = tokens(&["cmd", ">", "out.txt", "2>&1"]);
    let plan = resolve_stage_redirection(&cmd).unwrap().unwrap();
    assert_eq!(plan.slots, vec![1, 2]);
    assert!(!plan.read);
    assert_eq!(plan.filename, "out.txt");
    assert_eq!(plan.remaining, vec!["cmd"]);
    let standard = DescTriple::standard();
    let (t, closes) = apply_redirection(&standard, &plan.slots, 7);
    assert_eq!(t.stdout_fd, 7);
    assert_eq!(t.stderr_fd, 7);
    assert_eq!(t.stdin_fd, 0);
    assert!(closes.is_empty());
}

#[test]
fn misplaced_combined_form_is_a_syntax_error() {
    let cmd = tokens(&["cmd", ">", "f", "2>&1", "x"]);
    assert_eq!(resolve_stage_redirection(&cmd).unwrap_err(), "syntax error");
    let cmd = tokens(&["cmd", "2>&1", ">", "f"]);
    assert_eq!(resolve_stage_redirection(&cmd).unwrap_err(), "syntax error");
}

#[test]
fn operator_without_command_is_a_parse_error() {
    let cmd = tokens(&["2>", "f"]);
    assert_eq!(resolve_stage_redirection(&cmd).unwrap_err(), "parse error");
    let cmd = tokens(&[">", "f", "2>&1"]);
    assert_eq!(resolve_stage_redirection(&cmd).unwrap_err(), "parse error");
}

#[test]
fn each_operator_targets_its_slots() {
    let plan = resolve_stage_redirection(&tokens(&["c", "<", "in"])).unwrap().unwrap();
    assert_eq!(plan.slots, vec![0]);
    assert!(plan.read);
    let plan = resolve_stage_redirection(&tokens(&["c", ">", "out"])).unwrap().unwrap();
    assert_eq!(plan.slots, vec![1]);
    assert!(!plan.read);
    let plan = resolve_stage_redirection(&tokens(&["c", "2>", "err"])).unwrap().unwrap();
    assert_eq!(plan.slots, vec![2]);
    let plan = resolve_stage_redirection(&tokens(&["c", "&>", "both"])).unwrap().unwrap();
    assert_eq!(plan.slots, vec![1, 2]);
    let plan = resolve_stage_redirection(&tokens(&["c", ">&", "both"])).unwrap().unwrap();
    assert_eq!(plan.slots, vec![1, 2]);
    assert!(resolve_stage_redirection(&tokens(&["c", "args"])).unwrap().is_none());
}

#[test]
fn displaced_pipe_descriptors_are_reported_for_closing() {
    let t = DescTriple { stdin_fd: 0, stdout_fd: 5, stderr_fd: 2 };
    let slots = vec![1usize];
    let (t2, closes) = apply_redirection(&t, &slots, 9);
    assert_eq!(t2.stdout_fd, 9);
    assert_eq!(closes, vec![5]);
    // a standard descriptor is never a candidate for closing
    let t = DescTriple { stdin_fd: 0, stdout_fd: 1, stderr_fd: 2 };
    let slots = vec![1usize, 2usize];
    let (_, closes) = apply_redirection(&t, &slots, 9);
    assert!(closes.is_empty());
}

#[test]
fn missing_input_file_aborts_the_line() {
    let shell = MyShell::new(String::from("/usr/local/bin/myshell"));
    let r = shell.prepare_line("cmd < /nonexistent/myshell/input/file");
    assert!(r.is_err());
}

#[test]
fn output_redirection_opens_a_real_descriptor() {
    let shell = MyShell::new(String::from("/usr/local/bin/myshell"));
    let p = shell
        .prepare_line("cmd > /tmp/myshell_redirection_case.txt 2>&1")
        .unwrap()
        .unwrap();
    assert_eq!(p.steps.len(), 1);
    assert_eq!(p.steps[0], vec!["cmd"]);
    let t = p.ioe_descriptors[0];
    assert!(t.stdout_fd > 2);
    assert_eq!(t.stdout_fd, t.stderr_fd);
    assert_eq!(t.stdin_fd, 0);
    nix::unistd::close(t.stdout_fd).unwrap();
}
