//! Bounded undo history for maze edits.
//!
//! Snapshots are full copies of the grid. One snapshot is pushed per user
//! action; pushing a grid equal to the newest snapshot does nothing, and once
//! [`MAX_DEPTH`] snapshots are held the oldest one is dropped.

use vstd::prelude::*;

use crate::mazes::cell::{self, Cell, MazeGrid};
use crate::mazes::grid_ops::{copy_grid, grids_equal};

verus! {

/// The most snapshots the history keeps.
pub const MAX_DEPTH: usize = 100;

/// The history after pushing `g` onto `h`.
pub open spec fn push_spec(h: Seq<Seq<Seq<Cell>>>, g: Seq<Seq<Cell>>) -> Seq<Seq<Seq<Cell>>> {
    if h.len() > 0 && h.last() == g {
        h
    } else if h.len() >= MAX_DEPTH {
        h.drop_first().push(g)
    } else {
        h.push(g)
    }
}

pub struct UndoStack {
    history: Vec<MazeGrid>,
}

impl View for UndoStack {
    type V = Seq<Seq<Seq<Cell>>>;

    /// The snapshots, oldest first.
    closed spec fn view(&self) -> Seq<Seq<Seq<Cell>>> {
        self.history@.map_values(|m: MazeGrid| cell::grid_view(&m))
    }
}

impl UndoStack {
    #[verifier::type_invariant]
    closed spec fn bounded(&self) -> bool {
        self.history@.len() <= MAX_DEPTH
    }

    pub fn new() -> (s: Self)
        ensures
            s@ == Seq::<Seq<Seq<Cell>>>::empty(),
    {
        let s = UndoStack { history: Vec::new() };
        assert(s@ =~= Seq::<Seq<Seq<Cell>>>::empty());
        s
    }

    /// Push a snapshot if the maze differs from the top of the stack; when
    /// the stack is full the oldest snapshot makes room.
    pub fn push(&mut self, maze: &MazeGrid)
        ensures
            final(self)@ == push_spec(old(self)@, cell::grid_view(maze)),
            final(self)@.len() <= MAX_DEPTH,
    {
        proof {
            use_type_invariant(&*self);
        }
        let ghost h = self@;
        let ghost g = cell::grid_view(maze);
        let n = self.history.len();
        if n > 0 {
            let same = grids_equal(&self.history[n - 1], maze);
            if same {
                assert(h.last() == g);
                return;
            }
            assert(h.last() != g);
        }
        let snapshot = copy_grid(maze);
        let mut history = Vec::new();
        std::mem::swap(&mut history, &mut self.history);
        if n >= MAX_DEPTH {
            history.remove(0);
        }
        history.push(snapshot);
        proof {
            if n >= MAX_DEPTH {
                assert(history@.map_values(|m: MazeGrid| cell::grid_view(&m)) =~= h.drop_first().push(g));
            } else {
                assert(history@.map_values(|m: MazeGrid| cell::grid_view(&m)) =~= h.push(g));
            }
        }
        self.history = history;
    }

    /// Pop the most recent snapshot. Returns `None` if there's nothing to undo.
    pub fn pop(&mut self) -> (r: Option<MazeGrid>)
        ensures
            match r {
                Some(m) => old(self)@.len() > 0 && cell::grid_view(&m) == old(self)@.last()
                    && final(self)@ == old(self)@.drop_last(),
                None => old(self)@.len() == 0 && final(self)@ == old(self)@,
            },
    {
        proof {
            use_type_invariant(&*self);
        }
        let ghost h = self@;
        let mut history = Vec::new();
        std::mem::swap(&mut history, &mut self.history);
        let r = history.pop();
        proof {
            if r.is_some() {
                assert(history@.map_values(|m: MazeGrid| cell::grid_view(&m)) =~= h.drop_last());
            } else {
                assert(history@.map_values(|m: MazeGrid| cell::grid_view(&m)) =~= h);
            }
        }
        self.history = history;
        r
    }

    pub fn len(&self) -> (n: usize)
        ensures
            n == self@.len(),
    {
        self.history.len()
    }

    pub fn is_empty(&self) -> (b: bool)
        ensures
            b == (self@.len() == 0),
    {
        self.history.len() == 0
    }

    pub fn clear(&mut self)
        ensures
            final(self)@ == Seq::<Seq<Seq<Cell>>>::empty(),
    {
        self.history = Vec::new();
        assert(self@ =~= Seq::<Seq<Seq<Cell>>>::empty());
    }
}

impl Default for UndoStack {
    fn default() -> (s: Self)
        ensures
            s@ == Seq::<Seq<Seq<Cell>>>::empty(),
    {
        Self::new()
    }
}

/// After pushing a maze, the newest snapshot is that maze: an undo right
/// after a push gives back what was pushed, whether or not it was a duplicate.
pub proof fn lemma_push_then_top(h: Seq<Seq<Seq<Cell>>>, g: Seq<Seq<Cell>>)
    ensures
        push_spec(h, g).len() > 0,
        push_spec(h, g).last() == g,
{
}

/// Pushing the same maze twice in a row keeps one snapshot of it.
pub proof fn lemma_push_dedup(h: Seq<Seq<Seq<Cell>>>, g: Seq<Seq<Cell>>)
    ensures
        push_spec(push_spec(h, g), g) == push_spec(h, g),
{
}

/// The history never holds more than `MAX_DEPTH` snapshots, and a push onto
/// a full history drops exactly the oldest snapshot (first in, first out).
pub proof fn lemma_push_bounded_fifo(h: Seq<Seq<Seq<Cell>>>, g: Seq<Seq<Cell>>)
    requires
        h.len() <= MAX_DEPTH,
    ensures
        push_spec(h, g).len() <= MAX_DEPTH,
        h.len() == MAX_DEPTH && h.last() != g ==> push_spec(h, g) == h.drop_first().push(g),
{
}

} // verus!
