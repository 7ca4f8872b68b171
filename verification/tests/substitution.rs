use myshell::myshell::MyShell;

fn shell() -> MyShell {
    MyShell::new(String::from("/usr/local/bin/myshell"))
}

#[test]
fn local_variable_substitutes_and_absent_name_becomes_empty() {
    let mut sh = shell();
    let status = sh.set_local_variable(&vec!["x=5".to_string()]);
    assert_eq!(status, 0);
    assert_eq!(sh.substitute_token("$x"), "5");
    let sh2 = shell();
    assert_eq!(sh2.substitute_token("$x"), "");
}

#[test]
fn local_table_is_consulted_before_the_environment() {
    let mut sh = shell();
    sh.env_vars.insert("name".to_string(), "from-env".to_string());
    assert_eq!(sh.substitute_token("$name"), "from-env");
    sh.set_local_variable(&vec!["name=local".to_string()]);
    assert_eq!(sh.substitute_token("$name"), "local");
}

#[test]
fn single_quotes_disable_substitution_and_are_stripped() {
    let mut sh = shell();
    sh.set_local_variable(&vec!["x=5".to_string()]);
    assert_eq!(sh.substitute_token("'$x'"), "$x");
    assert_eq!(sh.substitute_token("\"$x\""), "5");
}

#[test]
fn backslash_escapes_the_next_character() {
    let mut sh = shell();
    sh.set_local_variable(&vec!["x=5".to_string()]);
    assert_eq!(sh.substitute_token("\\$x"), "$x");
    assert_eq!(sh.substitute_token("a\\"), "a");
}

#[test]
fn dollar_before_parenthesis_is_left_alone() {
    let sh = shell();
    assert_eq!(sh.substitute_token("$(e f)"), "$(e f)");
    assert_eq!(sh.substitute_token("end$"), "end$");
}

#[test]
fn adjacent_references_both_substitute() {
    let mut sh = shell();
    sh.set_local_variable(&vec!["a=1".to_string()]);
    sh.set_local_variable(&vec!["b=2".to_string()]);
    assert_eq!(sh.substitute_token("$a$b"), "12");
    assert_eq!(sh.substitute_token("x $a"), "x 1");
}

#[test]
fn assignment_with_two_equals_is_rejected() {
    let mut sh = shell();
    let status = sh.set_local_variable(&vec!["a=b=c".to_string()]);
    assert_eq!(status, 1);
    assert!(!sh.local_vars.contains_key("a"));
}

#[test]
fn later_assignment_replaces_earlier_value() {
    let mut sh = shell();
    sh.set_local_variable(&vec!["x=1".to_string()]);
    sh.set_local_variable(&vec!["x=2".to_string()]);
    assert_eq!(sh.local_vars.get("x").unwrap(), "2");
    assert!(sh.local_vars.contains_key("x"));
    assert!(!sh.local_vars.contains_key("y"));
}

#[test]
fn substitution_runs_over_every_token() {
    let mut sh = shell();
    sh.set_local_variable(&vec!["x=5".to_string()]);
    let cmd = vec!["mecho".to_string(), "\"$x\"".to_string(), "'lit'".to_string()];
    let out = sh.substitute_vars_rem_parenth(Ok(cmd)).unwrap();
    assert_eq!(out, vec!["mecho", "5", "lit"]);
    let err: Result<Vec<String>, String> = Err("boom".to_string());
    assert_eq!(sh.substitute_vars_rem_parenth(err), Err("boom".to_string()));
}
