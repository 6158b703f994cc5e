//! The download queue, as far as the followers look at it.

use crate::text::same_text;
use vstd::prelude::*;
use vstd::string::*;

verus! {

/// Whether a download is running, by the status texts of the queue.
pub fn any_downloading(statuses: &Vec<String>) -> (r: bool)
    ensures
        r == exists|i: int|
            0 <= i < statuses@.len() && (#[trigger] statuses@[i])@ == "downloading"@,
{
    let mut i: usize = 0;
    while i < statuses.len()
        invariant
            i <= statuses.len(),
            forall|j: int| 0 <= j < i ==> (#[trigger] statuses@[j])@ != "downloading"@,
        decreases statuses.len() - i,
    {
        if same_text(statuses[i].as_str(), "downloading") {
            assert(statuses@[i as int]@ == "downloading"@);
            return true;
        }
        i = i + 1;
    }
    false
}

} // verus!
