//! Participants. A thread's actors are humans plus exactly one agent.

use vstd::prelude::*;

verus! {

#[derive(Clone, Copy, Debug, PartialEq, Eq, Hash, Structural)]
pub struct ActorId(pub u32);

#[derive(Clone, Copy, Debug, PartialEq, Eq, Structural)]
pub enum ActorKind {
    Human,
    Agent,
}

#[derive(Debug)]
pub struct Actor {
    pub id: ActorId,
    pub handle: String,
    pub kind: ActorKind,
    /// Cursor and attribution colour.
    pub color: u32,
}

#[verifier::ext_equal]
pub ghost struct ActorModel {
    pub id: ActorId,
    pub handle: Seq<char>,
    pub kind: ActorKind,
    pub color: u32,
}

impl DeepView for Actor {
    type V = ActorModel;

    open spec fn deep_view(&self) -> ActorModel {
        ActorModel { id: self.id, handle: self.handle@, kind: self.kind, color: self.color }
    }
}

impl Clone for Actor {
    fn clone(&self) -> (r: Self)
        ensures
            r.deep_view() == self.deep_view(),
    {
        Actor {
            id: self.id,
            handle: self.handle.clone(),
            kind: self.kind,
            color: self.color,
        }
    }
}

/// The four cursor swatches, in order.
pub const CURSOR_COLORS: [u32; 4] = [0xD4A017, 0xD4D4B0, 0x2E6FBF, 0xE33F26];

} // verus!
