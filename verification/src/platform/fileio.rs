//! The inbox through which the result of a file pick reaches the app.
//!
//! The picker writes here when the user has chosen a file (or when reading
//! or parsing it failed); the app reads and clears it each frame.

use vstd::prelude::*;

use crate::mazes::cell::{self, Cell, MazeGrid};

verus! {

/// What a file pick delivers, as plain values: the grid, or the error text.
pub open spec fn pick_view(r: Result<MazeGrid, String>) -> Result<Seq<Seq<Cell>>, Seq<char>> {
    match r {
        Ok(m) => Ok(cell::grid_view(&m)),
        Err(e) => Err(e@),
    }
}

/// A grid delivered by a file pick is rectangular.
pub open spec fn pick_ok(r: Result<MazeGrid, String>) -> bool {
    r matches Ok(m) ==> cell::is_rectangular(cell::grid_view(&m))
}

/// One slot holding the latest file pick not yet taken.
pub struct FileInbox {
    slot: Option<Result<MazeGrid, String>>,
}

impl FileInbox {
    #[verifier::type_invariant]
    closed spec fn holds_rectangular(&self) -> bool {
        self.slot matches Some(r) ==> pick_ok(r)
    }

    /// The pick waiting to be taken, if any.
    pub closed spec fn view(&self) -> Option<Result<Seq<Seq<Cell>>, Seq<char>>> {
        match self.slot {
            Some(r) => Some(pick_view(r)),
            None => None,
        }
    }

    pub fn new() -> (r: Self)
        ensures
            r.view() is None,
    {
        FileInbox { slot: None }
    }

    /// Deliver a pick, replacing any pick not yet taken.
    pub fn put(&mut self, result: Result<MazeGrid, String>)
        requires
            pick_ok(result),
        ensures
            final(self).view() == Some(pick_view(result)),
    {
        self.slot = Some(result);
    }

    /// Take any pending pick. Returns `None` if nothing was delivered since
    /// the last call.
    pub fn take(&mut self) -> (r: Option<Result<MazeGrid, String>>)
        ensures
            match r {
                Some(p) => old(self).view() == Some(pick_view(p)) && pick_ok(p),
                None => old(self).view() is None,
            },
            final(self).view() is None,
    {
        proof {
            use_type_invariant(&*self);
        }
        let mut slot: Option<Result<MazeGrid, String>> = None;
        std::mem::swap(&mut slot, &mut self.slot);
        slot
    }
}

impl Default for FileInbox {
    fn default() -> (r: Self)
        ensures
            r.view() is None,
    {
        FileInbox::new()
    }
}

} // verus!
