//! A run of consecutive draw commands that share one vertex buffer.
use vstd::prelude::*;

use crate::Entity;

verus! {

#[derive(Clone, Copy, Debug, PartialEq, Eq, Structural)]
pub struct Batch {
    vbo: Entity,
    offset: usize,
    count: usize,
}

impl Batch {
    /// A batch of `count` commands on the vertex buffer `vbo`, starting at
    /// command `offset`.
    pub fn new(vbo: Entity, offset: usize, count: usize) -> (r: Batch)
        ensures
            r.vbo() == vbo,
            r.offset_int() == offset,
            r.count_spec() == count,
    {
        Batch { vbo, offset, count }
    }

    pub closed spec fn vbo_spec(&self) -> Entity {
        self.vbo
    }

    pub closed spec fn offset_spec(&self) -> usize {
        self.offset
    }

    pub closed spec fn count_spec(&self) -> usize {
        self.count
    }

    /// The vertex buffer every command of the batch draws from.
    #[verifier::when_used_as_spec(vbo_spec)]
    pub fn vbo(&self) -> (r: Entity)
        ensures
            r == self.vbo_spec(),
    {
        self.vbo
    }

    /// The index of the batch's first command.
    #[verifier::when_used_as_spec(offset_spec)]
    pub fn offset_int(&self) -> (r: usize)
        ensures
            r == self.offset_spec(),
    {
        self.offset
    }

    /// The number of commands, as the draw call takes it.
    pub fn drawcount(&self) -> (r: i32)
        ensures
            r == self.count_spec() as i32,
    {
        self.count as i32
    }
}

} // verus!
