use myshell::myshell::engine::{
    aggregate_status, candidate_paths, execution_schedule, first_true, split_path_dirs,
    strip_background,
};
use myshell::myshell::CommandType;

#[test]
fn aggregate_status_reports_the_first_failing_stage() {
    // true | false | true: the middle stage's status decides
    assert_eq!(aggregate_status(&vec![0, 1, 0]), 1);
    assert_eq!(aggregate_status(&vec![0, 2, 3]), 2);
    assert_eq!(aggregate_status(&vec![0, 0, 0]), 0);
    assert_eq!(aggregate_status(&vec![127]), 127);
    assert_eq!(aggregate_status(&vec![]), 0);
}

#[test]
fn externals_are_dispatched_before_in_process_stages() {
    let types = vec![
        CommandType::Internal,
        CommandType::External,
        CommandType::LocalVar,
        CommandType::External,
    ];
    assert_eq!(execution_schedule(&types), vec![1, 3, 0, 2]);
    let all_internal = vec![CommandType::Internal, CommandType::Internal];
    assert_eq!(execution_schedule(&all_internal), vec![0, 1]);
    let all_external = vec![CommandType::External, CommandType::External];
    assert_eq!(execution_schedule(&all_external), vec![0, 1]);
}

#[test]
fn background_marker_is_stripped() {
    let mut cmd = vec!["sleep".to_string(), "1".to_string(), "&".to_string()];
    assert!(strip_background(&mut cmd));
    assert_eq!(cmd, vec!["sleep", "1"]);
    let mut cmd = vec!["ls".to_string()];
    assert!(!strip_background(&mut cmd));
    assert_eq!(cmd, vec!["ls"]);
}

#[test]
fn path_splitting_appends_the_empty_directory() {
    let dirs = split_path_dirs(&"/bin:/usr/bin".to_string());
    assert_eq!(dirs, vec!["/bin", "/usr/bin", ""]);
    let dirs = split_path_dirs(&"".to_string());
    assert_eq!(dirs, vec!["", ""]);
}

#[test]
fn binary_resolution_takes_the_first_existing_candidate() {
    let dirs = vec!["/a".to_string(), "/b".to_string(), "".to_string()];
    let cands = candidate_paths(&dirs, "prog");
    assert_eq!(cands, vec!["/a/prog", "/b/prog", "/prog"]);
    assert_eq!(first_true(&vec![false, true, true]), Some(1));
    assert_eq!(first_true(&vec![false, false]), None);
}
