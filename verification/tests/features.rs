use encode_queue::domain::{CommandText, InvalidCommandError, QueueError, QueueRepository};
use encode_queue::features;
use encode_queue::features::list::format_listing;
use encode_queue::features::process::{next_step, ProcessStep};

struct MockRepo {
    commands: Vec<CommandText>,
}

impl QueueRepository for MockRepo {
    fn add(&mut self, command: &CommandText) -> Result<(), QueueError> {
        self.commands.push(command.clone());
        Ok(())
    }
    fn list(&self) -> Result<Vec<CommandText>, QueueError> {
        Ok(self.commands.clone())
    }
    fn get_and_remove_first(&mut self) -> Result<Option<CommandText>, QueueError> {
        if self.commands.is_empty() {
            Ok(None)
        } else {
            Ok(Some(self.commands.remove(0)))
        }
    }
    fn open_in_editor(&self) -> Result<(), QueueError> {
        Ok(())
    }
}

struct FailingRepo;

impl QueueRepository for FailingRepo {
    fn add(&mut self, _: &CommandText) -> Result<(), QueueError> {
        Err(QueueError::Env)
    }
    fn list(&self) -> Result<Vec<CommandText>, QueueError> {
        Err(QueueError::Env)
    }
    fn get_and_remove_first(&mut self) -> Result<Option<CommandText>, QueueError> {
        Err(QueueError::Env)
    }
    fn open_in_editor(&self) -> Result<(), QueueError> {
        Err(QueueError::EditorSpawn("no editor".to_string()))
    }
}

#[test]
fn add_command_valid() {
    let mut repo = MockRepo { commands: vec![] };
    features::add::add_command(&mut repo, "echo hello").unwrap();
    assert_eq!(repo.commands.len(), 1);
    assert_eq!(repo.commands[0].as_str(), "echo hello");
}

#[test]
fn add_command_empty_rejected() {
    let mut repo = MockRepo { commands: vec![] };
    assert!(features::add::add_command(&mut repo, "").is_err());
}

#[test]
fn add_command_whitespace_only_rejected() {
    let mut repo = MockRepo { commands: vec![] };
    assert!(features::add::add_command(&mut repo, "   ").is_err());
}

#[test]
fn list_commands_returns_ok() {
    let repo = MockRepo {
        commands: vec![CommandText::new("cmd1").unwrap()],
    };
    assert!(features::list::list_commands(&repo).is_ok());
}

#[test]
fn edit_queue_returns_ok() {
    let repo = MockRepo { commands: vec![] };
    assert!(features::edit::edit_queue(&repo).is_ok());
}

#[test]
fn add_command_hands_over_trimmed_text() {
    let mut repo = MockRepo { commands: vec![] };
    features::add::add_command(&mut repo, "  first ").unwrap();
    features::add::add_command(&mut repo, "second\t").unwrap();
    let texts: Vec<&str> = repo.commands.iter().map(|c| c.as_str()).collect();
    assert_eq!(texts, vec!["first", "second"]);
}

#[test]
fn add_command_rejection_is_invalid_empty_and_leaves_queue() {
    let mut repo = MockRepo {
        commands: vec![CommandText::new("kept").unwrap()],
    };
    let err = features::add::add_command(&mut repo, " \n ").unwrap_err();
    assert!(matches!(err, QueueError::InvalidCommand(InvalidCommandError::WhitespaceOnly)));
    let err = features::add::add_command(&mut repo, "").unwrap_err();
    assert!(matches!(err, QueueError::InvalidCommand(InvalidCommandError::Empty)));
    assert_eq!(repo.commands.len(), 1);
}

#[test]
fn add_command_passes_on_repository_failure() {
    let mut repo = FailingRepo;
    assert!(matches!(
        features::add::add_command(&mut repo, "ls"),
        Err(QueueError::Env)
    ));
}

#[test]
fn edit_queue_passes_on_failure() {
    assert!(matches!(
        features::edit::edit_queue(&FailingRepo),
        Err(QueueError::EditorSpawn(_))
    ));
}

#[test]
fn list_commands_numbers_from_one() {
    let repo = MockRepo {
        commands: vec![
            CommandText::new("cmd1").unwrap(),
            CommandText::new("cmd two").unwrap(),
        ],
    };
    let lines = features::list::list_commands(&repo).unwrap();
    assert_eq!(lines, vec!["1: cmd1".to_string(), "2: cmd two".to_string()]);
}

#[test]
fn list_commands_of_empty_queue_is_empty() {
    let repo = MockRepo { commands: vec![] };
    assert!(features::list::list_commands(&repo).unwrap().is_empty());
}

#[test]
fn list_commands_passes_on_failure() {
    assert!(matches!(
        features::list::list_commands(&FailingRepo),
        Err(QueueError::Env)
    ));
}

#[test]
fn listing_numbers_past_nine() {
    let commands: Vec<CommandText> = (0..12)
        .map(|i| CommandText::new(&format!("job {}", i)).unwrap())
        .collect();
    let lines = format_listing(&commands);
    assert_eq!(lines.len(), 12);
    assert_eq!(lines[0], "1: job 0");
    assert_eq!(lines[9], "10: job 9");
    assert_eq!(lines[11], "12: job 11");
}

#[test]
fn listing_numbers_in_the_hundreds() {
    let commands: Vec<CommandText> = (0..105)
        .map(|_| CommandText::new("x").unwrap())
        .collect();
    let lines = format_listing(&commands);
    assert_eq!(lines[99], "100: x");
    assert_eq!(lines[104], "105: x");
}

#[test]
fn next_step_runs_the_command_taken() {
    let cmd = CommandText::new("true").unwrap();
    match next_step(Ok(Some(cmd))) {
        Ok(ProcessStep::Run(c)) => assert_eq!(c.as_str(), "true"),
        _ => panic!("expected a command to run"),
    }
}

#[test]
fn next_step_finishes_on_empty_queue() {
    assert!(matches!(next_step(Ok(None)), Ok(ProcessStep::Finished)));
}

#[test]
fn next_step_passes_on_failure() {
    assert!(matches!(next_step(Err(QueueError::Env)), Err(QueueError::Env)));
}

#[test]
fn processing_steps_drain_the_queue_in_order() {
    let mut repo = MockRepo {
        commands: vec![
            CommandText::new("a").unwrap(),
            CommandText::new("b").unwrap(),
        ],
    };
    let mut ran = Vec::new();
    let mut calls = 0;
    loop {
        calls += 1;
        match next_step(repo.get_and_remove_first()).unwrap() {
            ProcessStep::Run(c) => ran.push(c.as_str().to_string()),
            ProcessStep::Finished => break,
        }
    }
    assert_eq!(ran, vec!["a".to_string(), "b".to_string()]);
    assert_eq!(calls, 3);
}
