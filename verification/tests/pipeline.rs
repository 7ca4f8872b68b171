use myshell::myshell::preprocessing::wire_stages;
use myshell::myshell::{CommandType, MyShell};

#[test]
fn wiring_links_adjacent_stages_through_one_pipe() {
    let pipes = vec![(3, 4), (5, 6)];
    let triples = wire_stages(3, &pipes);
    assert_eq!(triples.len(), 3);
    // stage 0 writes the write end of pipe 0; stage 1 reads its read end
    assert_eq!(triples[0].stdout_fd, pipes[0].1);
    assert_eq!(triples[1].stdin_fd, pipes[0].0);
    // stage 1 writes the write end of pipe 1; stage 2 reads its read end
    assert_eq!(triples[1].stdout_fd, pipes[1].1);
    assert_eq!(triples[2].stdin_fd, pipes[1].0);
    // the rim of the pipeline is the shell's own stdin and stdout
    assert_eq!(triples[0].stdin_fd, 0);
    assert_eq!(triples[2].stdout_fd, 1);
    for t in &triples {
        assert_eq!(t.stderr_fd, 2);
    }
}

#[test]
fn three_stage_pipeline_shares_real_pipes() {
    let toks = MyShell::split_command("cmd1 | cmd2 | cmd3").unwrap();
    let p = MyShell::preprocess_pipeline(toks).unwrap();
    assert_eq!(p.steps.len(), 3);
    assert_eq!(p.steps[0], vec!["cmd1"]);
    assert_eq!(p.steps[1], vec!["cmd2"]);
    assert_eq!(p.steps[2], vec!["cmd3"]);
    assert!(p.types.iter().all(|t| *t == CommandType::External));
    // stage 0's stdout and stage 1's stdin are the two ends of one pipe:
    // bytes written into one come out of the other
    nix::unistd::write(p.ioe_descriptors[0].stdout_fd, b"ab").unwrap();
    let mut buf = [0u8; 2];
    nix::unistd::read(p.ioe_descriptors[1].stdin_fd, &mut buf).unwrap();
    assert_eq!(&buf, b"ab");
    nix::unistd::write(p.ioe_descriptors[1].stdout_fd, b"cd").unwrap();
    nix::unistd::read(p.ioe_descriptors[2].stdin_fd, &mut buf).unwrap();
    assert_eq!(&buf, b"cd");
}

#[test]
fn single_stage_gets_standard_streams() {
    let toks = MyShell::split_command("cmd alone").unwrap();
    let p = MyShell::preprocess_pipeline(toks).unwrap();
    assert_eq!(p.steps.len(), 1);
    assert_eq!(p.ioe_descriptors[0].stdin_fd, 0);
    assert_eq!(p.ioe_descriptors[0].stdout_fd, 1);
    assert_eq!(p.ioe_descriptors[0].stderr_fd, 2);
}

#[test]
fn empty_middle_stage_is_a_syntax_error_before_execution() {
    let shell = MyShell::new(String::from("/usr/local/bin/myshell"));
    let r = shell.prepare_line("cmd1 | | cmd2");
    assert_eq!(r.unwrap_err(), "syntax error");
    let r = shell.prepare_line("cmd1 | cmd2 |");
    assert_eq!(r.unwrap_err(), "syntax error");
}

#[test]
fn empty_stage_detection() {
    let toks = MyShell::split_command("a | | b").unwrap();
    let p = MyShell::preprocess_pipeline(toks).unwrap();
    assert!(p.has_empty_stage());
    let toks = MyShell::split_command("a | b").unwrap();
    let p = MyShell::preprocess_pipeline(toks).unwrap();
    assert!(!p.has_empty_stage());
}
