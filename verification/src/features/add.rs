use vstd::prelude::*;

use crate::domain::command::{blank_error, trim, CommandText};
use crate::domain::queue::{QueueError, QueueRepository};

verus! {

/// Validates `raw` and puts the command at the back of the queue. Text
/// that is empty or only whitespace is refused before the queue is
/// touched; otherwise the repository's `add` receives the command whose
/// text is `raw` trimmed, and its answer is returned.
pub fn add_command<Q: QueueRepository>(repo: &mut Q, raw: &str) -> (r: Result<(), QueueError>)
    ensures
        trim(raw@).len() == 0 ==> r == Err::<(), QueueError>(
            QueueError::InvalidCommand(blank_error(raw@)),
        ) && *final(repo) == *old(repo),
        trim(raw@).len() > 0 ==> exists|m: &mut Q, c: CommandText|
            #![trigger call_ensures(Q::add, (m, &c), r)]
            mut_ref_current(m) == *old(repo) && mut_ref_future(m) == *final(repo) && c@ == trim(
                raw@,
            ) && call_ensures(Q::add, (m, &c), r),
{
    match CommandText::new(raw) {
        Ok(command) => repo.add(&command),
        Err(e) => Err(QueueError::InvalidCommand(e)),
    }
}

} // verus!
