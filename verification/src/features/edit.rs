use vstd::prelude::*;

use crate::domain::queue::{QueueError, QueueRepository};

verus! {

/// Hands the queue to the user's editor: the result is the repository's
/// answer to `open_in_editor`.
pub fn edit_queue<Q: QueueRepository>(repo: &Q) -> (r: Result<(), QueueError>)
    ensures
        call_ensures(Q::open_in_editor, (repo,), r),
{
    repo.open_in_editor()
}

} // verus!
