use encode_queue::domain::{CommandText, InvalidCommandError};

#[test]
fn valid_command() {
    let cmd = CommandText::new("echo hello").unwrap();
    assert_eq!(cmd.as_str(), "echo hello");
}

#[test]
fn empty_command_rejected() {
    assert!(CommandText::new("").is_err());
}

#[test]
fn whitespace_only_rejected() {
    assert!(CommandText::new("   ").is_err());
}

#[test]
fn trims_whitespace() {
    let cmd = CommandText::new("  echo hello  ").unwrap();
    assert_eq!(cmd.as_str(), "echo hello");
}

#[test]
fn try_from_str() {
    let cmd: CommandText = "echo hello".try_into().unwrap();
    assert_eq!(cmd.as_str(), "echo hello");
}

#[test]
fn try_from_empty_str_fails() {
    let result: Result<CommandText, _> = ("").try_into();
    assert!(result.is_err());
}

#[test]
fn empty_is_the_error_for_empty_text() {
    assert_eq!(CommandText::new("").unwrap_err(), InvalidCommandError::Empty);
}

#[test]
fn whitespace_only_is_the_error_for_blank_text() {
    assert_eq!(CommandText::new(" \t\r\n ").unwrap_err(), InvalidCommandError::WhitespaceOnly);
    assert_eq!(CommandText::new("   ").unwrap_err(), InvalidCommandError::WhitespaceOnly);
}

#[test]
fn try_from_tells_empty_from_whitespace() {
    let empty: Result<CommandText, _> = "".try_into();
    let blank: Result<CommandText, _> = "\u{3000}".try_into();
    assert_eq!(empty.unwrap_err(), InvalidCommandError::Empty);
    assert_eq!(blank.unwrap_err(), InvalidCommandError::WhitespaceOnly);
}

#[test]
fn trims_unicode_whitespace() {
    let cmd = CommandText::new("\u{3000}\u{a0}ls -l\u{2009}\u{85}").unwrap();
    assert_eq!(cmd.as_str(), "ls -l");
}

#[test]
fn keeps_inner_whitespace() {
    let cmd = CommandText::new("\tffmpeg  -i a.mp4\t b.mp4 \n").unwrap();
    assert_eq!(cmd.as_str(), "ffmpeg  -i a.mp4\t b.mp4");
}

#[test]
fn trims_like_std() {
    for raw in ["", " a ", "a", "\u{2028}x\u{2029}", "\u{200b}x", " \u{1680}y\u{205f}", "é ü\u{3000}"] {
        let expected = raw.trim();
        match CommandText::new(raw) {
            Ok(cmd) => assert_eq!(cmd.as_str(), expected),
            Err(_) => assert!(expected.is_empty()),
        }
    }
}

#[test]
fn new_is_idempotent() {
    let cmd = CommandText::new("  echo  hi ").unwrap();
    let again = CommandText::new(cmd.as_str()).unwrap();
    assert_eq!(again, cmd);
}

#[test]
fn clone_keeps_text() {
    let cmd = CommandText::new("x y").unwrap();
    assert_eq!(cmd.clone().as_str(), "x y");
}
