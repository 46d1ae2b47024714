use vstd::prelude::*;

use crate::vector::Vec3;

verus! {

/// An orientation as a unit quaternion, components scaled by `UNIT`.
#[derive(Clone, Copy, Debug, PartialEq, Eq, Structural)]
pub struct Quat {
    pub x: i64,
    pub y: i64,
    pub z: i64,
    pub w: i64,
}

impl Quat {
    pub fn identity() -> (r: Quat)
        ensures
            r == (Quat { x: 0, y: 0, z: 0, w: crate::vector::UNIT }),
    {
        Quat { x: 0, y: 0, z: 0, w: crate::vector::UNIT }
    }
}

/// Entities sent without orientation: parallel arrays, one index per entity.
pub struct NetworkedEntities {
    pub entities: Vec<u64>,
    pub translations: Vec<Vec3>,
    pub velocities: Vec<Vec3>,
}

/// Entities sent with orientation: parallel arrays, one index per entity.
pub struct WithRotation {
    pub entities: Vec<u64>,
    pub translations: Vec<Vec3>,
    pub velocities: Vec<Vec3>,
    pub rotations: Vec<Quat>,
}

/// One snapshot of the server world. `last_player_input` is the serial of
/// the recipient's last applied input, `None` while none is applied; the
/// entity arrays are the same for every recipient.
pub struct NetworkFrame {
    pub tick: u32,
    pub last_player_input: Option<u32>,
    pub entities: NetworkedEntities,
    pub with_rotation: WithRotation,
}

impl NetworkedEntities {
    pub open spec fn wf(&self) -> bool {
        self.translations@.len() == self.entities@.len() && self.velocities@.len()
            == self.entities@.len()
    }

    pub fn new() -> (r: NetworkedEntities)
        ensures
            r.wf(),
            r.entities@.len() == 0,
    {
        NetworkedEntities { entities: Vec::new(), translations: Vec::new(), velocities: Vec::new() }
    }

    pub fn push(&mut self, entity: u64, translation: Vec3, velocity: Vec3)
        requires
            old(self).wf(),
        ensures
            final(self).wf(),
            final(self).entities@ == old(self).entities@.push(entity),
            final(self).translations@ == old(self).translations@.push(translation),
            final(self).velocities@ == old(self).velocities@.push(velocity),
    {
        self.entities.push(entity);
        self.translations.push(translation);
        self.velocities.push(velocity);
    }

    pub fn len(&self) -> (r: usize)
        ensures
            r == self.entities@.len(),
    {
        self.entities.len()
    }
}

impl WithRotation {
    pub open spec fn wf(&self) -> bool {
        &&& self.translations@.len() == self.entities@.len()
        &&& self.velocities@.len() == self.entities@.len()
        &&& self.rotations@.len() == self.entities@.len()
    }

    pub fn new() -> (r: WithRotation)
        ensures
            r.wf(),
            r.entities@.len() == 0,
    {
        WithRotation {
            entities: Vec::new(),
            translations: Vec::new(),
            velocities: Vec::new(),
            rotations: Vec::new(),
        }
    }

    pub fn push(&mut self, entity: u64, translation: Vec3, velocity: Vec3, rotation: Quat)
        requires
            old(self).wf(),
        ensures
            final(self).wf(),
            final(self).entities@ == old(self).entities@.push(entity),
            final(self).translations@ == old(self).translations@.push(translation),
            final(self).velocities@ == old(self).velocities@.push(velocity),
            final(self).rotations@ == old(self).rotations@.push(rotation),
    {
        self.entities.push(entity);
        self.translations.push(translation);
        self.velocities.push(velocity);
        self.rotations.push(rotation);
    }

    pub fn len(&self) -> (r: usize)
        ensures
            r == self.entities@.len(),
    {
        self.entities.len()
    }
}

impl NetworkFrame {
    pub open spec fn wf(&self) -> bool {
        self.entities.wf() && self.with_rotation.wf()
    }

    /// Every entity that the frame mentions, in either array set.
    pub open spec fn mentioned(&self) -> Seq<u64> {
        self.entities.entities@ + self.with_rotation.entities@
    }

    pub fn new(tick: u32, last_player_input: Option<u32>) -> (r: NetworkFrame)
        ensures
            r.wf(),
            r.tick == tick,
            r.last_player_input == last_player_input,
            r.entities.entities@.len() == 0,
            r.with_rotation.entities@.len() == 0,
    {
        NetworkFrame {
            tick,
            last_player_input,
            entities: NetworkedEntities::new(),
            with_rotation: WithRotation::new(),
        }
    }
}

} // verus!
