use rsh::builtin::{dispatch, parse_pid, same_text, Action, BuiltinError};
use rsh::command::{parse_line, ParseError};
use rsh::history::History;
use rsh::jobs::{Job, JobTable};
use rsh::shell::Shell;

fn act(line: &str) -> Result<Action, BuiltinError> {
    dispatch(&parse_line(line).unwrap(), "/home/u")
}

#[test]
fn builtins_by_first_word() {
    assert!(matches!(act("exit\n"), Ok(Action::Exit)));
    assert!(matches!(act("pwd\n"), Ok(Action::Pwd)));
    assert!(matches!(act("history\n"), Ok(Action::ShowHistory)));
    assert!(matches!(act("jobs\n"), Ok(Action::ShowJobs)));
    assert!(matches!(act("\n"), Ok(Action::Nothing)));
    assert!(matches!(act("ls -l\n"), Ok(Action::Run)));
    assert!(matches!(act("Exit\n"), Ok(Action::Run)));
    assert!(matches!(act("pwd | cat\n"), Ok(Action::Run)));
}

#[test]
fn cd_resolves_its_directory() {
    match act("cd docs\n") {
        Ok(Action::ChangeDir(p)) => assert_eq!(p, "/home/u/docs"),
        _ => panic!("expected a directory change"),
    }
    match act("cd /tmp\n") {
        Ok(Action::ChangeDir(p)) => assert_eq!(p, "/tmp"),
        _ => panic!("expected a directory change"),
    }
    assert!(matches!(act("cd\n"), Err(BuiltinError::NoDirectory)));
}

#[test]
fn kill_needs_a_valid_pid() {
    assert!(matches!(act("kill 1234\n"), Ok(Action::Kill(1234))));
    assert!(matches!(act("kill\n"), Err(BuiltinError::NoPid)));
    assert!(matches!(act("kill abc\n"), Err(BuiltinError::BadPid)));
}

#[test]
fn pid_parsing() {
    assert_eq!(parse_pid("42"), Some(42));
    assert_eq!(parse_pid("007"), Some(7));
    assert_eq!(parse_pid("2147483647"), Some(2147483647));
    assert_eq!(parse_pid("2147483648"), None);
    assert_eq!(parse_pid("99999999999999999999"), None);
    assert_eq!(parse_pid("0"), None);
    assert_eq!(parse_pid("-5"), None);
    assert_eq!(parse_pid("12a"), None);
    assert_eq!(parse_pid(""), None);
}

#[test]
fn text_comparison() {
    assert!(same_text("jobs", "jobs"));
    assert!(!same_text("jobs", "job"));
    assert!(!same_text("jobs", "jabs"));
}

#[test]
fn history_lists_only_earlier_lines() {
    let mut h = History::new();
    assert!(h.prior().is_empty());
    h.record("ls\n");
    assert!(h.prior().is_empty());
    h.record("\n");
    h.record("pwd\n");
    h.record("history\n");
    let e = h.prior();
    assert_eq!(e.len(), 3);
    assert_eq!((e[0].number, e[0].line.as_str()), (1, "ls\n"));
    assert_eq!((e[1].number, e[1].line.as_str()), (2, "\n"));
    assert_eq!((e[2].number, e[2].line.as_str()), (3, "pwd\n"));
}

#[test]
fn reconcile_drops_finished_jobs() {
    let mut t = JobTable::new();
    t.add(Job { pids: vec![10], display: "sleep 5".to_string() });
    t.add(Job { pids: vec![11, 12], display: "a | b".to_string() });
    t.add(Job { pids: vec![13], display: "c".to_string() });
    let shown = t.reconcile(&vec![vec![false], vec![true, false], vec![true]]);
    assert_eq!(shown, vec!["sleep 5".to_string(), "a | b".to_string()]);
    assert_eq!(t.len(), 2);
    assert_eq!(t.get(1).pids, vec![11, 12]);
    let shown = t.reconcile(&vec![vec![true], vec![true, true]]);
    assert!(shown.is_empty());
    assert_eq!(t.len(), 0);
}

#[test]
fn background_sleep_scenario() {
    let mut sh = Shell::new();
    let c = sh.accept("sleep 5 &\n").unwrap();
    assert!(c.background);
    let wait = sh.finish(&c, vec![4321]);
    assert!(wait.is_empty());
    assert_eq!(sh.jobs.len(), 1);
    let shown = sh.jobs.reconcile(&vec![vec![false]]);
    assert_eq!(shown, vec!["sleep 5".to_string()]);
    let shown = sh.jobs.reconcile(&vec![vec![true]]);
    assert!(shown.is_empty());
}

#[test]
fn foreground_waits_for_every_process() {
    let mut sh = Shell::new();
    let c = sh.accept("cat < /tmp/o.txt | wc\n").unwrap();
    let wait = sh.finish(&c, vec![7, 8]);
    assert_eq!(wait, vec![7, 8]);
    assert_eq!(sh.jobs.len(), 0);
}

#[test]
fn accept_records_history_but_not_end_of_input() {
    let mut sh = Shell::new();
    sh.accept("ls\n").unwrap();
    assert_eq!(sh.accept("x").unwrap_err(), ParseError::EndOfInput);
    sh.accept("history\n").unwrap();
    let e = sh.history.prior();
    assert_eq!(e.len(), 1);
    assert_eq!(e[0].line, "ls\n");
}
