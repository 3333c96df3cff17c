use vstd::prelude::*;

use crate::domain::command::CommandText;
use crate::domain::queue::QueueError;

verus! {

/// What processing the queue does next.
pub enum ProcessStep {
    /// Run this command, then look at the queue again.
    Run(CommandText),
    /// The queue is empty: processing is done.
    Finished,
}

/// Decides the next step of processing from what taking the front command
/// off the queue gave: run the command that came off, stop when the queue
/// was empty, and pass on a failure.
pub fn next_step(taken: Result<Option<CommandText>, QueueError>) -> (r: Result<
    ProcessStep,
    QueueError,
>)
    ensures
        match taken {
            Ok(Some(c)) => r matches Ok(ProcessStep::Run(d)) && d == c,
            Ok(None) => r matches Ok(ProcessStep::Finished),
            Err(e) => r matches Err(f) && f == e,
        },
{
    match taken {
        Ok(Some(c)) => Ok(ProcessStep::Run(c)),
        Ok(None) => Ok(ProcessStep::Finished),
        Err(e) => Err(e),
    }
}

} // verus!
