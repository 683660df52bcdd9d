//! Small verified helpers shared by both backends.

use vstd::prelude::*;
use crate::event::NoteEvent;
use crate::model::seq_has_id;

verus! {

/// The position of the record carrying the given id, if any.
pub(crate) fn find_event_index(events: &Vec<NoteEvent>, id: &String) -> (r: Option<usize>)
    ensures
        match r {
            Some(i) => i < events@.len() && events@[i as int].id@ == id@,
            None => !seq_has_id(events@, id@),
        },
{
    let mut i: usize = 0;
    while i < events.len()
        invariant
            i <= events@.len(),
            forall|j: int| 0 <= j < i ==> events@[j].id@ != id@,
        decreases events@.len() - i,
    {
        if events[i].id == *id {
            return Some(i);
        }
        i += 1;
    }
    None
}

/// The position of the given string in the list, if any.
pub(crate) fn find_str_index(ids: &Vec<String>, id: &String) -> (r: Option<usize>)
    ensures
        match r {
            Some(k) => k < ids@.len() && ids@[k as int]@ == id@,
            None => forall|k: int| 0 <= k < ids@.len() ==> ids@[k]@ != id@,
        },
{
    let mut k: usize = 0;
    while k < ids.len()
        invariant
            k <= ids@.len(),
            forall|j: int| 0 <= j < k ==> ids@[j]@ != id@,
        decreases ids@.len() - k,
    {
        if ids[k] == *id {
            return Some(k);
        }
        k += 1;
    }
    None
}

/// Replace the element at position `i`.
pub(crate) fn replace_at<T>(v: &mut Vec<T>, i: usize, x: T)
    requires
        i < old(v)@.len(),
    ensures
        final(v)@ == old(v)@.update(i as int, x),
{
    v.remove(i);
    v.insert(i, x);
    proof {
        assert(v@ =~= old(v)@.update(i as int, x));
    }
}

} // verus!
