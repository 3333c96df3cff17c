use encode_queue::adapters::file_queue::{
    command_line, editor_outcome, editor_program, parse_commands, peek_first_command,
    remove_command, split_into_lines, take_first_command,
};
use encode_queue::domain::QueueError;
use encode_queue::domain::CommandText;

fn texts(commands: &[CommandText]) -> Vec<&str> {
    commands.iter().map(|c| c.as_str()).collect()
}

fn added(contents: &str, raw: &str) -> String {
    let mut text = contents.to_string();
    text.push_str(&command_line(&CommandText::new(raw).unwrap()));
    text
}

#[test]
fn command_line_ends_with_newline() {
    assert_eq!(command_line(&CommandText::new(" echo hello ").unwrap()), "echo hello\n");
}

#[test]
fn queue_text_add_and_list() {
    let text = added("", "echo hello");
    assert_eq!(texts(&parse_commands(&text)), vec!["echo hello"]);
}

#[test]
fn queue_text_add_multiple_keeps_order() {
    let text = added(&added(&added("", "first"), "second"), "third");
    assert_eq!(text, "first\nsecond\nthird\n");
    assert_eq!(texts(&parse_commands(&text)), vec!["first", "second", "third"]);
}

#[test]
fn queue_text_empty_lists_nothing() {
    assert!(parse_commands("").is_empty());
    assert!(parse_commands("\n  \n\t\n").is_empty());
}

#[test]
fn queue_text_list_filters_empty_lines() {
    assert_eq!(texts(&parse_commands("\nreal cmd\n\n")), vec!["real cmd"]);
}

#[test]
fn queue_text_list_trims_lines_and_handles_crlf() {
    assert_eq!(
        texts(&parse_commands("  a b \r\nc\r\n\r\nd")),
        vec!["a b", "c", "d"]
    );
}

#[test]
fn queue_text_take_first_is_fifo() {
    let (first, rest) = take_first_command("first\nsecond\n").unwrap();
    assert_eq!(first.as_str(), "first");
    assert_eq!(rest, "second\n");
    assert_eq!(texts(&parse_commands(&rest)), vec!["second"]);
}

#[test]
fn queue_text_take_first_of_empty_is_none() {
    assert!(take_first_command("").is_none());
    assert!(take_first_command("\n \n").is_none());
}

#[test]
fn queue_text_take_first_skips_leading_empty_lines() {
    let (first, rest) = take_first_command("\n\ncmd\n").unwrap();
    assert_eq!(first.as_str(), "cmd");
    assert_eq!(rest, "");
}

#[test]
fn queue_text_take_first_preserves_trailing_newline() {
    let (first, rest) = take_first_command("one\ntwo\nthree\n").unwrap();
    assert_eq!(first.as_str(), "one");
    assert_eq!(rest, "two\nthree\n");
    assert_eq!(texts(&parse_commands(&rest)), vec!["two", "three"]);
}

#[test]
fn queue_text_take_first_trims_and_rewrites_rest() {
    let (first, rest) = take_first_command("  go \r\n\nnext\r\nlast").unwrap();
    assert_eq!(first.as_str(), "go");
    assert_eq!(rest, "\nnext\nlast\n");
}

#[test]
fn queue_text_drain_then_add() {
    let mut text = added(&added("", "a"), "b");
    let mut seen = Vec::new();
    while let Some((c, rest)) = take_first_command(&text) {
        seen.push(c.as_str().to_string());
        text = rest;
    }
    assert_eq!(seen, vec!["a".to_string(), "b".to_string()]);
    text = added(&text, "c");
    assert_eq!(texts(&parse_commands(&text)), vec!["c"]);
}

#[test]
fn split_into_lines_matches_std() {
    for text in ["", "\n", "a", "a\n", "a\n\n", "a\r\nb", "a\rb\n", "x\r", "\r\n\r\n", "é\nü\r\n"] {
        let expected: Vec<String> = text.lines().map(|l| l.to_string()).collect();
        assert_eq!(split_into_lines(text), expected, "text {:?}", text);
    }
}

#[test]
fn editor_defaults_to_nvim() {
    assert_eq!(editor_program(None), "nvim");
    assert_eq!(editor_program(Some("vi".to_string())), "vi");
}

#[test]
fn peek_leaves_the_front_command_in_place() {
    let text = "\n  first \nsecond\n";
    assert_eq!(peek_first_command(text).unwrap().as_str(), "first");
    assert!(peek_first_command("").is_none());
    assert!(peek_first_command(" \n\t\n").is_none());
}

#[test]
fn remove_after_run_takes_out_that_command_only() {
    let cmd = CommandText::new("second").unwrap();
    let rest = remove_command("first\r\n second \nthird\nsecond", &cmd).unwrap();
    assert_eq!(rest, "first\nthird\nsecond\n");
    assert_eq!(texts(&parse_commands(&rest)), vec!["first", "third", "second"]);
}

#[test]
fn remove_after_run_of_missing_command_leaves_file() {
    let cmd = CommandText::new("gone").unwrap();
    assert!(remove_command("a\nb\n", &cmd).is_none());
    assert!(remove_command("", &cmd).is_none());
}

#[test]
fn run_then_remove_is_fifo() {
    let mut text = added(&added(&added("", "a"), "b"), "c");
    let mut ran = Vec::new();
    while let Some(cmd) = peek_first_command(&text) {
        ran.push(cmd.as_str().to_string());
        text = remove_command(&text, &cmd).unwrap();
    }
    assert_eq!(ran, vec!["a".to_string(), "b".to_string(), "c".to_string()]);
    assert_eq!(text, "");
}

#[test]
fn run_then_remove_keeps_commands_added_meanwhile() {
    let text = added("", "first");
    let cmd = peek_first_command(&text).unwrap();
    let edited = added(&text, "later");
    let rest = remove_command(&edited, &cmd).unwrap();
    assert_eq!(texts(&parse_commands(&rest)), vec!["later"]);
}

#[test]
fn editor_outcome_success_is_ok() {
    assert!(editor_outcome(Ok((true, "exit status: 0".to_string()))).is_ok());
}

#[test]
fn editor_outcome_failed_status_names_it() {
    match editor_outcome(Ok((false, "exit status: 1".to_string()))) {
        Err(QueueError::EditorSpawn(m)) => assert_eq!(m, "editor exited with status exit status: 1"),
        _ => panic!("expected an editor error"),
    }
}

#[test]
fn editor_outcome_spawn_error_is_passed_on() {
    match editor_outcome(Err("No such file or directory".to_string())) {
        Err(QueueError::EditorSpawn(m)) => assert_eq!(m, "No such file or directory"),
        _ => panic!("expected an editor error"),
    }
}
