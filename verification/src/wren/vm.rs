use vstd::prelude::*;

use super::value::Obj;
use super::{MAX_TEMP_ROOTS, VM};

verus! {

impl VM {
    /// Keeps `obj` alive through collections until it is popped.
    pub fn push_root(&mut self, obj: &Obj)
        requires
            old(self).wf(),
            old(self).roots().len() < MAX_TEMP_ROOTS,
        ensures
            final(self).wf(),
            final(self).roots() == old(self).roots().push(*obj),
            final(self).slots() == old(self).slots(),
            final(self).configuration() == old(self).configuration(),
            final(self).methods() == old(self).methods(),
            final(self).live_handles() == old(self).live_handles(),
            final(self).next_handle() == old(self).next_handle(),
            final(self).next_collection() == old(self).next_collection(),
    {
        self.temp_roots.push(*obj);
    }

    /// Releases the temporary root pushed last.
    pub fn pop_root(&mut self)
        requires
            old(self).wf(),
            old(self).roots().len() > 0,
        ensures
            final(self).wf(),
            final(self).roots() == old(self).roots().drop_last(),
            final(self).slots() == old(self).slots(),
            final(self).configuration() == old(self).configuration(),
            final(self).methods() == old(self).methods(),
            final(self).live_handles() == old(self).live_handles(),
            final(self).next_handle() == old(self).next_handle(),
            final(self).next_collection() == old(self).next_collection(),
    {
        self.temp_roots.pop();
    }
}

/// Popping the root just pushed leaves the roots as they were.
pub proof fn law_pop_undoes_push(roots: Seq<Obj>, obj: Obj)
    ensures
        roots.push(obj).drop_last() == roots,
{
    assert(roots.push(obj).drop_last() =~= roots);
}

} // verus!
