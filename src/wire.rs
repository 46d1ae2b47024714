use vstd::prelude::*;

use crate::vector::Vec3;

verus! {

/// What a spawned non-player entity is.
#[derive(Clone, Copy, Debug, PartialEq, Eq, Structural)]
pub enum ObjectType {
    Projectile,
    Box,
}

/// Lifecycle events from the server, on the `ServerMessages` channel.
#[derive(Clone, Copy, Debug, PartialEq, Eq, Structural)]
pub enum ServerMessages {
    PlayerCreate { id: u64, entity: u64, translation: Vec3 },
    PlayerRemove { id: u64 },
    SpawnProjectile { entity: u64, translation: Vec3, object_type: ObjectType },
    DespawnProjectile { entity: u64 },
}

/// Discrete actions from a client, on the `Command` channel.
#[derive(Clone, Copy, Debug, PartialEq, Eq, Structural)]
pub enum PlayerCommand {
    BasicAttack { cast_at: Vec3 },
}

/// Logical channels from client to server.
#[derive(Clone, Copy, Debug, PartialEq, Eq, Structural)]
pub enum ClientChannel {
    Input,
    Command,
}

/// Logical channels from server to client.
#[derive(Clone, Copy, Debug, PartialEq, Eq, Structural)]
pub enum ServerChannel {
    ServerMessages,
    NetworkFrame,
}

impl ClientChannel {
    pub fn id(&self) -> (r: u8)
        ensures
            r == (match self {
                ClientChannel::Input => 0u8,
                ClientChannel::Command => 1u8,
            }),
    {
        match self {
            ClientChannel::Input => 0,
            ClientChannel::Command => 1,
        }
    }
}

impl ServerChannel {
    pub fn id(&self) -> (r: u8)
        ensures
            r == (match self {
                ServerChannel::ServerMessages => 0u8,
                ServerChannel::NetworkFrame => 1u8,
            }),
    {
        match self {
            ServerChannel::ServerMessages => 0,
            ServerChannel::NetworkFrame => 1,
        }
    }
}

} // verus!
