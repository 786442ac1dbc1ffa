//! Undirected pipes connecting two structures.

use vstd::prelude::*;

verus! {

/// A pipe joins two distinct structures. Endpoints are stored in canonical
/// (min, max) order so that two pipes joining the same pair compare equal no
/// matter in which order the endpoints were given.
#[derive(Debug, Copy, Clone, PartialEq, Eq, Structural)]
pub struct Pipe {
    pub pipe_id: i64,
    pub start_id: i64,
    pub end_id: i64,
}

impl Pipe {
    /// Canonical order, distinct endpoints, and an id of its own.
    pub open spec fn wf(self) -> bool {
        &&& self.start_id < self.end_id
        &&& self.pipe_id != self.start_id
        &&& self.pipe_id != self.end_id
    }

    /// Whether one of the two endpoints is `id`.
    pub open spec fn touches(self, id: i64) -> bool {
        self.start_id == id || self.end_id == id
    }

    /// The endpoint on the far side of `id`.
    pub open spec fn other_end(self, id: i64) -> i64 {
        if self.start_id == id {
            self.end_id
        } else {
            self.start_id
        }
    }

    /// The canonical record for a pipe `pipe_id` joining the two ids.
    pub open spec fn spec_canonical(pipe_id: i64, start_id: i64, end_id: i64) -> Pipe {
        if start_id < end_id {
            Pipe { pipe_id, start_id, end_id }
        } else {
            Pipe { pipe_id, start_id: end_id, end_id: start_id }
        }
    }

    pub fn new(pipe_id: i64, start_id: i64, end_id: i64) -> (p: Pipe)
        requires
            start_id != end_id,
            pipe_id != start_id,
            pipe_id != end_id,
        ensures
            p.wf(),
            p.pipe_id == pipe_id,
            p.touches(start_id),
            p.touches(end_id),
            p == Pipe::spec_canonical(pipe_id, start_id, end_id),
    {
        if start_id < end_id {
            Pipe { pipe_id, start_id, end_id }
        } else {
            Pipe { pipe_id, start_id: end_id, end_id: start_id }
        }
    }

    pub fn pipe_node_id(&self) -> (id: i64)
        ensures
            id == self.pipe_id,
    {
        self.pipe_id
    }

    pub fn start_node_id(&self) -> (id: i64)
        ensures
            id == self.start_id,
    {
        self.start_id
    }

    pub fn end_node_id(&self) -> (id: i64)
        ensures
            id == self.end_id,
    {
        self.end_id
    }
}

} // verus!
