use myshell::myshell::MyShell;
use myshell::string_utils::{find_all_start_end_symb, find_all_subshells};

#[test]
fn tokenize_respects_quote_and_subshell_spans() {
    let toks = MyShell::split_command("echo 'a b' \"c d\" $(e f)").unwrap();
    assert_eq!(toks, vec!["echo", "'a b'", "\"c d\"", "$(e f)"]);
    let shell = MyShell::new(String::from("/usr/local/bin/myshell"));
    let toks = shell.substitute_vars_rem_parenth(Ok(toks)).unwrap();
    assert_eq!(toks, vec!["echo", "a b", "c d", "$(e f)"]);
}

#[test]
fn tokenize_unterminated_quote_is_parse_error() {
    let r = MyShell::split_command("echo 'unterminated");
    assert_eq!(r.unwrap_err(), "myshell: parse error");
}

#[test]
fn tokenize_unterminated_subshell_is_parse_error() {
    let r = MyShell::split_command("echo $(a b");
    assert_eq!(r.unwrap_err(), "myshell: parse error");
}

#[test]
fn tokenize_collapses_space_runs() {
    let toks = MyShell::split_command("a   b  c").unwrap();
    assert_eq!(toks, vec!["a", "b", "c"]);
}

#[test]
fn retokenizing_joined_tokens_is_stable() {
    for line in ["echo  'a b'   x", "a | b|c", "one $(two  three) 'four  five'"] {
        let toks = MyShell::split_command(line).unwrap();
        let joined = toks.join(" ");
        let again = MyShell::split_command(&joined).unwrap();
        assert_eq!(again, toks);
    }
}

#[test]
fn quote_spans_pair_consecutive_occurrences() {
    let spans = find_all_start_end_symb("a'b'c'd'", "'").unwrap();
    assert_eq!(spans, vec![(1, 3), (5, 7)]);
    let none = find_all_start_end_symb("plain", "'").unwrap();
    assert!(none.is_empty());
    assert!(find_all_start_end_symb("a'b", "'").is_err());
}

#[test]
fn subshell_spans_record_only_outermost() {
    let spans = find_all_subshells("$(a $(b) c)").unwrap();
    assert_eq!(spans, vec![(0, 10)]);
    let spans = find_all_subshells("x $(a) y $(b)").unwrap();
    assert_eq!(spans, vec![(2, 5), (9, 12)]);
    assert!(find_all_subshells("$(open").is_err());
}

#[test]
fn comments_are_stripped_from_first_hash() {
    assert_eq!(MyShell::preprocess_comments("a b # rest"), "a b ");
    assert_eq!(MyShell::preprocess_comments("no comment"), "no comment");
    assert_eq!(MyShell::preprocess_comments("#all"), "");
}

#[test]
fn escaped_hash_begins_no_comment() {
    assert_eq!(MyShell::preprocess_comments("a\\#b"), "a\\#b");
    assert_eq!(MyShell::preprocess_comments("a \\# b # c"), "a \\# b ");
    assert_eq!(MyShell::preprocess_comments("\\\\# tail"), "\\\\");
    assert_eq!(MyShell::preprocess_comments("\\\\\\## tail"), "\\\\\\#");
    assert_eq!(MyShell::preprocess_comments("end\\"), "end\\");
}
