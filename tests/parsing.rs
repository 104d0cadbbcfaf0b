use rsh::command::{parse_line, CommandKind, ParseError};
use rsh::lexer::{join_strings, split, split_words, Separator};

fn words_of(stage: &Vec<String>) -> Vec<&str> {
    stage.iter().map(|s| s.as_str()).collect()
}

#[test]
fn simple_command_words() {
    let c = parse_line("ls  -a\t-l\n").unwrap();
    assert_eq!(c.kind, CommandKind::Simple);
    assert!(!c.background);
    assert_eq!(c.stages.len(), 1);
    assert_eq!(words_of(&c.stages[0]), vec!["ls", "-a", "-l"]);
}

#[test]
fn missing_newline_is_end_of_input() {
    assert_eq!(parse_line("ls").unwrap_err(), ParseError::EndOfInput);
    assert_eq!(parse_line("").unwrap_err(), ParseError::EndOfInput);
}

#[test]
fn blank_line_is_null_command() {
    let c = parse_line("   \t \n").unwrap();
    assert_eq!(c.kind, CommandKind::Null);
    assert!(c.stages.is_empty());
    let e = parse_line("\n").unwrap();
    assert_eq!(e.kind, CommandKind::Null);
}

#[test]
fn trailing_ampersand_sets_background() {
    let c = parse_line("sleep 5 &\n").unwrap();
    assert!(c.background);
    assert_eq!(c.kind, CommandKind::Simple);
    assert_eq!(words_of(&c.stages[0]), vec!["sleep", "5"]);
    let d = parse_line("sleep 5&  \n").unwrap();
    assert!(d.background);
    assert_eq!(words_of(&d.stages[0]), vec!["sleep", "5"]);
}

#[test]
fn ampersand_inside_is_a_word() {
    let c = parse_line("echo a & b\n").unwrap();
    assert!(!c.background);
    assert_eq!(words_of(&c.stages[0]), vec!["echo", "a", "&", "b"]);
}

#[test]
fn pipeline_stages() {
    let c = parse_line("cat < /tmp/o.txt | wc\n").unwrap();
    assert_eq!(c.kind, CommandKind::Pipeline);
    assert_eq!(c.stages.len(), 2);
    assert_eq!(words_of(&c.stages[0]), vec!["cat", "<", "/tmp/o.txt"]);
    assert_eq!(words_of(&c.stages[1]), vec!["wc"]);
}

#[test]
fn empty_stage_is_rejected() {
    assert_eq!(parse_line("ls | | wc\n").unwrap_err(), ParseError::EmptyStage);
    assert_eq!(parse_line("ls |\n").unwrap_err(), ParseError::EmptyStage);
}

#[test]
fn display_joins_stages_with_bars() {
    let c = parse_line("  a   b|c  d |e\n").unwrap();
    assert_eq!(c.display(), "a b | c d | e");
    let again = parse_line(&format!("{}\n", c.display())).unwrap();
    assert_eq!(again.stages, c.stages);
    assert_eq!(again.kind, CommandKind::Pipeline);
}

#[test]
fn display_of_background_simple_command() {
    let c = parse_line("sleep 5 &\n").unwrap();
    assert_eq!(c.display(), "sleep 5");
}

#[test]
fn split_keeps_empty_pieces() {
    let p = split("a||b|", Separator::Bar);
    assert_eq!(p, vec!["a", "", "b", ""]);
    assert_eq!(split("", Separator::Bar), vec![""]);
}

#[test]
fn words_drop_blanks() {
    assert_eq!(split_words(" x\t y  "), vec!["x", "y"]);
    assert!(split_words("   ").is_empty());
}

#[test]
fn join_strings_puts_separator_between() {
    let v = vec!["a".to_string(), "b".to_string(), "c".to_string()];
    assert_eq!(join_strings(&v, ", "), "a, b, c");
    assert_eq!(join_strings(&Vec::new(), ", "), "");
}
