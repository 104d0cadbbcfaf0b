use rsh::command::parse_line;
use rsh::plan::{plan_command, plan_stage, Endpoint, PipeSet};
use rsh::redirect::{absolute_path, resolve_stage, RedirectError};

fn strings(ws: &[&str]) -> Vec<String> {
    ws.iter().map(|s| s.to_string()).collect()
}

fn is_file(e: &Endpoint, path: &str) -> bool {
    matches!(e, Endpoint::File(p) if p == path)
}

#[test]
fn absolute_paths() {
    assert_eq!(absolute_path("/etc/x", "/home/u"), "/etc/x");
    assert_eq!(absolute_path("notes.txt", "/home/u"), "/home/u/notes.txt");
}

#[test]
fn redirections_split_from_arguments() {
    let r = resolve_stage(&strings(&["sort", "<in.txt", "-r", ">", "out.txt"]), "/w").unwrap();
    assert_eq!(r.argv, strings(&["sort", "-r"]));
    assert_eq!(r.inputs, strings(&["/w/in.txt"]));
    assert_eq!(r.outputs, strings(&["/w/out.txt"]));
}

#[test]
fn later_redirection_wins() {
    let l = plan_stage(&strings(&["cat", ">a", ">", "/tmp/b", "<c", "<d"]), "/w", 0, 1).unwrap();
    assert!(is_file(&l.output, "/tmp/b"));
    assert!(is_file(&l.input, "/w/d"));
    assert_eq!(l.create, strings(&["/w/a", "/tmp/b"]));
}

#[test]
fn lone_marker_at_end_is_malformed() {
    let e = resolve_stage(&strings(&["cat", "<"]), "/w").unwrap_err();
    assert_eq!(e, RedirectError::MalformedRedirection);
}

#[test]
fn stage_without_program_is_rejected() {
    let e = resolve_stage(&strings(&[">", "f"]), "/w").unwrap_err();
    assert_eq!(e, RedirectError::MissingProgram);
}

#[test]
fn missing_input_file_still_resolves() {
    let l = plan_stage(&strings(&["cat", "<", "/no/such/file"]), "/w", 0, 1).unwrap();
    assert!(is_file(&l.input, "/no/such/file"));
    assert!(matches!(l.output, Endpoint::Inherit));
}

#[test]
fn echo_to_file_scenario() {
    let c = parse_line("echo hi > /tmp/o.txt\n").unwrap();
    let plans = plan_command(&c, "/w");
    assert_eq!(plans.len(), 1);
    let l = plans[0].as_ref().unwrap();
    assert_eq!(l.argv, strings(&["echo", "hi"]));
    assert!(matches!(l.input, Endpoint::Inherit));
    assert!(is_file(&l.output, "/tmp/o.txt"));
    assert_eq!(l.create, strings(&["/tmp/o.txt"]));
}

#[test]
fn cat_into_wc_scenario() {
    let c = parse_line("cat < /tmp/o.txt | wc\n").unwrap();
    assert!(!c.background);
    let plans = plan_command(&c, "/w");
    assert_eq!(plans.len(), 2);
    let first = plans[0].as_ref().unwrap();
    let second = plans[1].as_ref().unwrap();
    assert_eq!(first.argv, strings(&["cat"]));
    assert!(is_file(&first.input, "/tmp/o.txt"));
    assert!(matches!(first.output, Endpoint::PipeWrite(0)));
    assert_eq!(second.argv, strings(&["wc"]));
    assert!(matches!(second.input, Endpoint::PipeRead(0)));
    assert!(matches!(second.output, Endpoint::Inherit));
}

#[test]
fn simple_command_inherits_streams() {
    let c = parse_line("ls -l\n").unwrap();
    let plans = plan_command(&c, "/w");
    let l = plans[0].as_ref().unwrap();
    assert!(matches!(l.input, Endpoint::Inherit));
    assert!(matches!(l.output, Endpoint::Inherit));
}

#[test]
fn three_stages_chain_through_two_pipes() {
    let c = parse_line("a | b | c\n").unwrap();
    let plans = plan_command(&c, "/w");
    assert!(matches!(plans[0].as_ref().unwrap().output, Endpoint::PipeWrite(0)));
    assert!(matches!(plans[1].as_ref().unwrap().input, Endpoint::PipeRead(0)));
    assert!(matches!(plans[1].as_ref().unwrap().output, Endpoint::PipeWrite(1)));
    assert!(matches!(plans[2].as_ref().unwrap().input, Endpoint::PipeRead(1)));
    assert_eq!(rsh::plan::pipe_count(&c), 2);
}

#[test]
fn bad_stage_keeps_its_neighbours() {
    let c = parse_line("a | > | c\n").unwrap();
    let plans = plan_command(&c, "/w");
    assert_eq!(plans[1].as_ref().unwrap_err(), &RedirectError::MalformedRedirection);
    assert!(plans[0].is_ok());
    assert!(plans[2].is_ok());
}

#[test]
fn pipe_set_releases_everything() {
    let mut p = PipeSet::new();
    p.add(3, 4);
    p.add(5, 6);
    assert_eq!(p.len(), 2);
    assert_eq!(p.read_end(1), 5);
    assert_eq!(p.write_end(0), 4);
    assert_eq!(p.descriptors(), vec![3, 4, 5, 6]);
    assert_eq!(p.release(), vec![3, 4, 5, 6]);
    assert_eq!(p.len(), 0);
    assert!(p.release().is_empty());
}
