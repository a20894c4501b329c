//! The users that have been seen, as the list of their identifiers.

use vstd::prelude::*;

verus! {

/// Whether the user `id` is among the users `ids` that have been seen.
pub fn contains_user(ids: &Vec<u64>, id: u64) -> (exist: bool)
    ensures
        exist == ids@.contains(id),
{
    let mut i: usize = 0;
    while i < ids.len()
        invariant
            i <= ids.len(),
            forall|j: int| 0 <= j < i ==> ids@[j] != id,
        decreases ids.len() - i,
    {
        if ids[i] == id {
            return true;
        }
        i += 1;
    }
    false
}

} // verus!
