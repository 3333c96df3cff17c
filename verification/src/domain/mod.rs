pub mod command;
pub mod queue;

pub use command::{CommandText, InvalidCommandError};
pub use queue::{QueueError, QueueRepository};
