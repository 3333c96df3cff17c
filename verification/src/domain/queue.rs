use vstd::prelude::*;

use crate::domain::command::{CommandText, InvalidCommandError};

verus! {

/// `std::io::Error` is carried through as an opaque value.
#[verifier::external_type_specification]
#[verifier::external_body]
pub struct ExIoError(std::io::Error);

/// Every way an operation on the queue can fail.
#[derive(Debug)]
pub enum QueueError {
    /// Reading or writing the queue, or running a command, failed.
    Io(std::io::Error),
    /// The `HOME` environment variable is not set.
    Env,
    /// The editor could not be started or did not succeed.
    EditorSpawn(String),
    /// A command was not valid.
    InvalidCommand(InvalidCommandError),
}

impl From<std::io::Error> for QueueError {
    fn from(e: std::io::Error) -> (r: Self)
        ensures
            r == QueueError::Io(e),
    {
        QueueError::Io(e)
    }
}

impl vstd::std_specs::convert::FromSpecImpl<std::io::Error> for QueueError {
    open spec fn obeys_from_spec() -> bool {
        true
    }

    open spec fn from_spec(v: std::io::Error) -> Self {
        QueueError::Io(v)
    }
}

impl From<InvalidCommandError> for QueueError {
    fn from(e: InvalidCommandError) -> (r: Self)
        ensures
            r == QueueError::InvalidCommand(e),
    {
        QueueError::InvalidCommand(e)
    }
}

impl vstd::std_specs::convert::FromSpecImpl<InvalidCommandError> for QueueError {
    open spec fn obeys_from_spec() -> bool {
        true
    }

    open spec fn from_spec(v: InvalidCommandError) -> Self {
        QueueError::InvalidCommand(v)
    }
}

/// Where the queue of commands is kept. The first command added is the
/// first one taken.
pub trait QueueRepository {
    /// Puts `command` at the back of the queue.
    fn add(&mut self, command: &CommandText) -> Result<(), QueueError>;

    /// The commands in the queue, front first.
    fn list(&self) -> Result<Vec<CommandText>, QueueError>;

    /// Takes the command at the front of the queue off it, or gives `None`
    /// when the queue is empty.
    fn get_and_remove_first(&mut self) -> Result<Option<CommandText>, QueueError>;

    /// Lets the user edit the queue by hand.
    fn open_in_editor(&self) -> Result<(), QueueError>;
}

} // verus!
