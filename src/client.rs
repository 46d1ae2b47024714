use std::collections::HashMap;
use vstd::prelude::*;

use crate::extrapolate::VelocityExtrapolate;
use crate::frame::{NetworkFrame, Quat};
use crate::input::{
    FpsControllerConfig, FpsControllerInput, FpsControllerInputQueue, FpsControllerSerial, KeyState,
    acknowledged_len, command_of, fps_controller_input, serials_increasing,
};
use crate::vector::{UNIT, within};
use crate::reconcile::{replay, replayed, step_translation, kinematic_step};
use crate::vector::Vec3;
use crate::wire::{ObjectType, ServerMessages};

verus! {

broadcast use vstd::std_specs::hash::group_hash_axioms;

/// How the client drives an entity between snapshots.
#[derive(Clone, Copy, Debug, PartialEq, Eq, Structural)]
pub enum EntityRole {
    /// The local player: predicted from local input, reconciled on snapshots.
    Controlled,
    /// Another entity: dead-reckoned from its last reported velocity.
    RemoteExtrapolated,
    /// Placed where the server says, and left there.
    Static,
}

/// One entity of the client world.
#[derive(Clone, Copy, Debug, PartialEq, Eq, Structural)]
pub struct ClientEntity {
    pub entity: u64,
    pub role: EntityRole,
    /// Where the entity is shown: predicted or extrapolated.
    pub translation: Vec3,
    /// Where the server last reported it.
    pub from_server: Vec3,
    pub rotation: Quat,
    pub extrapolate: VelocityExtrapolate,
}

impl ClientEntity {
    pub open spec fn wf(self) -> bool {
        &&& self.from_server.is_position()
        &&& self.extrapolate.wf()
        &&& self.role == EntityRole::Controlled ==> self.translation.is_position()
    }
}

#[derive(Clone, Copy, Debug, PartialEq, Eq, Structural)]
pub struct PlayerInfo {
    pub client_entity: u64,
    pub server_entity: u64,
}

/// Connected players by player id.
pub struct ClientLobby {
    pub players: HashMap<u64, PlayerInfo>,
}

/// Server entity id to client entity id.
pub struct NetworkMapping {
    pub entities: HashMap<u64, u64>,
}

/// The newest snapshot tick received, and the tick that dead reckoning has
/// reached since.
#[derive(Clone, Copy, Debug, PartialEq, Eq, Structural)]
pub struct MostRecentTick {
    pub from_server: u32,
    pub predicted: u32,
}

/// What the presentation layer must do after a server message.
#[derive(Clone, Copy, Debug, PartialEq, Eq, Structural)]
pub enum ClientAction {
    SpawnPlayer { entity: u64, translation: Vec3, controlled: bool },
    SpawnObject { entity: u64, translation: Vec3, object_type: ObjectType },
    Despawn { entity: u64 },
    Nothing,
}

/// Whether a snapshot with `tick` is newer than the last accepted one.
pub open spec fn accepts(last: Option<MostRecentTick>, tick: u32) -> bool {
    match last {
        None => true,
        Some(t) => t.from_server < tick,
    }
}

/// Index of the first entity of `ents` from `start` on with id `id`.
pub open spec fn find_from(ents: Seq<ClientEntity>, id: u64, start: int) -> Option<int>
    decreases ents.len() - start,
{
    if start < 0 || start >= ents.len() {
        None
    } else if ents[start].entity == id {
        Some(start)
    } else {
        find_from(ents, id, start + 1)
    }
}

pub proof fn lemma_find_from(ents: Seq<ClientEntity>, id: u64, start: int)
    requires
        0 <= start,
    ensures
        find_from(ents, id, start) is Some ==> ({
            let j = find_from(ents, id, start)->0;
            start <= j < ents.len() && ents[j].entity == id
        }),
    decreases ents.len() - start,
{
    if start < ents.len() && ents[start].entity != id {
        lemma_find_from(ents, id, start + 1);
    }
}

/// The state that one snapshot entry changes: the client's entities, its
/// queue of unacknowledged inputs, and the newest input serial that the
/// server acknowledged for the controlled entity (`None` while it has
/// applied none).
pub struct Reconciled {
    pub entities: Seq<ClientEntity>,
    pub queue: Seq<FpsControllerInput>,
    pub last_server_serial: Option<u32>,
}

/// The queue left once the server acknowledged `last_input`: without the
/// longest prefix of serials up to it; all of it while nothing is applied.
pub open spec fn unacknowledged(q: Seq<FpsControllerInput>, last_input: Option<u32>) -> Seq<
    FpsControllerInput,
> {
    match last_input {
        None => q,
        Some(s) => q.skip(acknowledged_len(q, s) as int),
    }
}

/// Applies one snapshot entry for server entity `sid`. An unknown entity, or
/// a report out of the world bounds, changes nothing. The controlled entity
/// records the acknowledged serial, drops acknowledged input, and is reset
/// to the report and replayed; a report with orientation does not apply to
/// it. Any other entity is placed at the report and its dead reckoning
/// restarts from `tick`.
pub open spec fn entry_applied(
    st: Reconciled,
    mapping: Map<u64, u64>,
    sid: u64,
    t: Vec3,
    v: Vec3,
    rot: Option<Quat>,
    tick: u32,
    last_input: Option<u32>,
) -> Reconciled {
    if !mapping.contains_key(sid) || !t.is_position() || !v.is_speed() {
        st
    } else {
        match find_from(st.entities, mapping[sid], 0) {
            None => st,
            Some(j) => {
                let e = st.entities[j];
                if e.role == EntityRole::Controlled {
                    if rot is Some {
                        st
                    } else {
                        let q = unacknowledged(st.queue, last_input);
                        Reconciled {
                            entities: st.entities.update(
                                j,
                                ClientEntity { translation: replayed(t, q), from_server: t, ..e },
                            ),
                            queue: q,
                            last_server_serial: last_input,
                        }
                    }
                } else {
                    Reconciled {
                        entities: st.entities.update(
                            j,
                            ClientEntity {
                                translation: t,
                                from_server: t,
                                rotation: match rot {
                                    Some(r) => r,
                                    None => e.rotation,
                                },
                                extrapolate: VelocityExtrapolate { velocity: v, base_tick: tick },
                                ..e
                            },
                        ),
                        queue: st.queue,
                        last_server_serial: st.last_server_serial,
                    }
                }
            },
        }
    }
}

/// The first `n` plain entries of a frame applied in order.
pub open spec fn plain_applied(
    st: Reconciled,
    mapping: Map<u64, u64>,
    frame: &NetworkFrame,
    n: int,
) -> Reconciled
    decreases n,
{
    if n <= 0 {
        st
    } else {
        let prev = plain_applied(st, mapping, frame, n - 1);
        entry_applied(
            prev,
            mapping,
            frame.entities.entities@[n - 1],
            frame.entities.translations@[n - 1],
            frame.entities.velocities@[n - 1],
            None,
            frame.tick,
            frame.last_player_input,
        )
    }
}

/// The first `n` oriented entries of a frame applied in order.
pub open spec fn rotated_applied(
    st: Reconciled,
    mapping: Map<u64, u64>,
    frame: &NetworkFrame,
    n: int,
) -> Reconciled
    decreases n,
{
    if n <= 0 {
        st
    } else {
        let prev = rotated_applied(st, mapping, frame, n - 1);
        entry_applied(
            prev,
            mapping,
            frame.with_rotation.entities@[n - 1],
            frame.with_rotation.translations@[n - 1],
            frame.with_rotation.velocities@[n - 1],
            Some(frame.with_rotation.rotations@[n - 1]),
            frame.tick,
            frame.last_player_input,
        )
    }
}

/// A whole frame applied: plain entries first, then oriented ones.
pub open spec fn frame_applied(st: Reconciled, mapping: Map<u64, u64>, frame: &NetworkFrame) -> Reconciled {
    let plain = plain_applied(st, mapping, frame, frame.entities.entities@.len() as int);
    rotated_applied(plain, mapping, frame, frame.with_rotation.entities@.len() as int)
}

/// Snapshot ticks that a client accepts, in order, from a run of arrivals.
pub open spec fn accepted_ticks(last: Option<u32>, ticks: Seq<u32>) -> Seq<u32>
    decreases ticks.len(),
{
    if ticks.len() == 0 {
        Seq::empty()
    } else {
        let t = ticks[0];
        let fresh = match last {
            None => true,
            Some(l) => l < t,
        };
        if fresh {
            seq![t] + accepted_ticks(Some(t), ticks.drop_first())
        } else {
            accepted_ticks(last, ticks.drop_first())
        }
    }
}

/// The client never applies a snapshot whose tick does not exceed the last
/// applied one: the accepted ticks strictly increase, and all exceed the
/// tick accepted before.
pub proof fn lemma_tick_monotonicity(last: Option<u32>, ticks: Seq<u32>)
    ensures
        forall|i: int, j: int|
            0 <= i < j < accepted_ticks(last, ticks).len() ==> accepted_ticks(last, ticks)[i]
                < accepted_ticks(last, ticks)[j],
        last is Some ==> forall|i: int|
            0 <= i < accepted_ticks(last, ticks).len() ==> last->0 < #[trigger] accepted_ticks(
                last,
                ticks,
            )[i],
    decreases ticks.len(),
{
    if ticks.len() > 0 {
        let t = ticks[0];
        let fresh = match last {
            None => true,
            Some(l) => l < t,
        };
        if fresh {
            lemma_tick_monotonicity(Some(t), ticks.drop_first());
            let rest = accepted_ticks(Some(t), ticks.drop_first());
            let all = accepted_ticks(last, ticks);
            assert(all == seq![t] + rest);
            assert forall|i: int, j: int| 0 <= i < j < all.len() implies all[i] < all[j] by {
                assert(all[j] == rest[j - 1]);
                if i > 0 {
                    assert(all[i] == rest[i - 1]);
                } else {
                    assert(t < rest[j - 1]);
                }
            }
            if last is Some {
                assert forall|i: int| 0 <= i < all.len() implies last->0 < #[trigger] all[i] by {
                    if i > 0 {
                        assert(all[i] == rest[i - 1]);
                        assert(t < rest[i - 1]);
                    }
                }
            }
        } else {
            lemma_tick_monotonicity(last, ticks.drop_first());
            assert(accepted_ticks(last, ticks) == accepted_ticks(last, ticks.drop_first()));
        }
    } else {
        assert(accepted_ticks(last, ticks).len() == 0);
    }
}

/// `ents` without the first entity with id `id`, if there is one.
pub open spec fn without_entity(ents: Seq<ClientEntity>, id: u64) -> Seq<ClientEntity> {
    match find_from(ents, id, 0) {
        None => ents,
        Some(j) => ents.remove(j),
    }
}

/// An entity after one step of dead reckoning at predicted tick `tick`.
pub open spec fn predicted_entity(e: ClientEntity, tick: u32) -> ClientEntity {
    if e.role == EntityRole::RemoteExtrapolated {
        ClientEntity { translation: e.extrapolate.extrapolated(tick, e.from_server), ..e }
    } else {
        e
    }
}

/// An entity after local prediction of one input.
pub open spec fn locally_moved(e: ClientEntity, input: FpsControllerInput) -> ClientEntity {
    if e.role == EntityRole::Controlled {
        ClientEntity { translation: kinematic_step(e.translation, input), ..e }
    } else {
        e
    }
}

/// A freshly spawned entity, at rest where the server placed it.
pub open spec fn spawned(entity: u64, role: EntityRole, translation: Vec3) -> ClientEntity {
    ClientEntity {
        entity,
        role,
        translation,
        from_server: translation,
        rotation: Quat { x: 0, y: 0, z: 0, w: crate::vector::UNIT },
        extrapolate: VelocityExtrapolate { velocity: Vec3 { x: 0, y: 0, z: 0 }, base_tick: 0 },
    }
}

/// The client side of the protocol: its entities, the lobby of players,
/// the map from server to client entity ids, the newest snapshot tick, and
/// the local player's unacknowledged input.
pub struct Client {
    pub client_id: u64,
    pub lobby: ClientLobby,
    pub mapping: NetworkMapping,
    pub most_recent_tick: Option<MostRecentTick>,
    pub entities: Vec<ClientEntity>,
    pub next_entity: u64,
    pub input_queue: FpsControllerInputQueue,
    /// The newest serial of local input that the server has applied.
    pub last_server_serial: Option<u32>,
}

pub open spec fn all_entities_wf(ents: Seq<ClientEntity>) -> bool {
    forall|j: int| 0 <= j < ents.len() ==> #[trigger] ents[j].wf()
}

impl Client {
    pub open spec fn wf(&self) -> bool {
        &&& self.input_queue.wf()
        &&& serials_increasing(self.input_queue@)
        &&& all_entities_wf(self.entities@)
    }

    pub open spec fn reconciled(&self) -> Reconciled {
        Reconciled {
            entities: self.entities@,
            queue: self.input_queue@,
            last_server_serial: self.last_server_serial,
        }
    }

    pub fn new(client_id: u64) -> (r: Client)
        ensures
            r.wf(),
            r.client_id == client_id,
            r.lobby.players@ == Map::<u64, PlayerInfo>::empty(),
            r.mapping.entities@ == Map::<u64, u64>::empty(),
            r.most_recent_tick.is_none(),
            r.entities@.len() == 0,
            r.next_entity == 0,
            r.input_queue@.len() == 0,
            r.last_server_serial.is_none(),
    {
        Client {
            client_id,
            lobby: ClientLobby { players: HashMap::new() },
            mapping: NetworkMapping { entities: HashMap::new() },
            most_recent_tick: None,
            entities: Vec::new(),
            next_entity: 0,
            input_queue: FpsControllerInputQueue::new(),
            last_server_serial: None,
        }
    }

    /// Index of the first entity with id `id`.
    fn find_entity(&self, id: u64) -> (r: Option<usize>)
        ensures
            r matches Some(j) ==> find_from(self.entities@, id, 0) == Some(j as int),
            r is None ==> find_from(self.entities@, id, 0) is None,
    {
        let mut i: usize = 0;
        while i < self.entities.len()
            invariant
                0 <= i <= self.entities@.len(),
                find_from(self.entities@, id, 0) == find_from(self.entities@, id, i as int),
            decreases self.entities@.len() - i,
        {
            if self.entities[i].entity == id {
                return Some(i);
            }
            i = i + 1;
        }
        None
    }

    /// Removes the first entity with id `id`, if any.
    fn remove_entity(&mut self, id: u64)
        requires
            old(self).wf(),
        ensures
            final(self).wf(),
            final(self).entities@ == without_entity(old(self).entities@, id),
            final(self).input_queue@ == old(self).input_queue@,
            final(self).last_server_serial == old(self).last_server_serial,
            final(self).lobby.players@ == old(self).lobby.players@,
            final(self).mapping.entities@ == old(self).mapping.entities@,
            final(self).most_recent_tick == old(self).most_recent_tick,
            final(self).next_entity == old(self).next_entity,
            final(self).client_id == old(self).client_id,
    {
        match self.find_entity(id) {
            None => {},
            Some(j) => {
                proof {
                    lemma_find_from(self.entities@, id, 0);
                }
                self.entities.remove(j);
                assert forall|k: int| 0 <= k < self.entities@.len() implies #[trigger] self.entities@[k].wf() by {
                    if k >= j {
                        assert(self.entities@[k] == old(self).entities@[k + 1]);
                    } else {
                        assert(self.entities@[k] == old(self).entities@[k]);
                    }
                }
            },
        }
    }

    /// Spawns a client entity for the server's `translation`; `None` when
    /// the translation is out of the world bounds or ids are exhausted.
    fn spawn(&mut self, role: EntityRole, translation: Vec3) -> (r: Option<u64>)
        requires
            old(self).wf(),
        ensures
            final(self).wf(),
            final(self).input_queue@ == old(self).input_queue@,
            final(self).last_server_serial == old(self).last_server_serial,
            final(self).lobby.players@ == old(self).lobby.players@,
            final(self).mapping.entities@ == old(self).mapping.entities@,
            final(self).most_recent_tick == old(self).most_recent_tick,
            final(self).client_id == old(self).client_id,
            (translation.is_position() && old(self).next_entity < u64::MAX) ==> r == Some(
                old(self).next_entity,
            ) && final(self).next_entity == old(self).next_entity + 1 && final(self).entities@
                == old(self).entities@.push(spawned(old(self).next_entity, role, translation)),
            !(translation.is_position() && old(self).next_entity < u64::MAX) ==> r is None
                && final(self).next_entity == old(self).next_entity && final(self).entities@
                == old(self).entities@,
    {
        if !(within_bounds(&translation) && self.next_entity < u64::MAX) {
            return None;
        }
        let e = self.next_entity;
        self.next_entity = e + 1;
        self.entities.push(
            ClientEntity {
                entity: e,
                role,
                translation,
                from_server: translation,
                rotation: Quat::identity(),
                extrapolate: VelocityExtrapolate::new(),
            },
        );
        assert forall|k: int| 0 <= k < self.entities@.len() implies #[trigger] self.entities@[k].wf() by {
            if k < old(self).entities@.len() {
                assert(self.entities@[k] == old(self).entities@[k]);
            }
        }
        Some(e)
    }

    /// Applies one lifecycle message from the server and tells the
    /// presentation layer what to spawn or despawn.
    ///
    /// A player or object creation spawns a client entity with the next
    /// free id (the local player's own creation is the controlled entity)
    /// and maps the server entity to it; a removal or despawn of a known
    /// player or entity removes it and its mappings. Unknown ids, and
    /// creations out of the world bounds, change nothing.
    pub fn apply_server_message(&mut self, message: ServerMessages) -> (r: ClientAction)
        requires
            old(self).wf(),
        ensures
            final(self).wf(),
            final(self).client_id == old(self).client_id,
            final(self).most_recent_tick == old(self).most_recent_tick,
            final(self).input_queue@ == old(self).input_queue@,
            final(self).last_server_serial == old(self).last_server_serial,
            r is Nothing ==> final(self).entities@ == old(self).entities@
                && final(self).lobby.players@ == old(self).lobby.players@
                && final(self).mapping.entities@ == old(self).mapping.entities@
                && final(self).next_entity == old(self).next_entity,
            match message {
                ServerMessages::PlayerCreate { id, entity, translation } => {
                    let role = if id == old(self).client_id {
                        EntityRole::Controlled
                    } else {
                        EntityRole::RemoteExtrapolated
                    };
                    let e = old(self).next_entity;
                    if translation.is_position() && e < u64::MAX {
                        &&& r == ClientAction::SpawnPlayer {
                            entity: e,
                            translation,
                            controlled: id == old(self).client_id,
                        }
                        &&& final(self).next_entity == e + 1
                        &&& final(self).entities@ == old(self).entities@.push(
                            spawned(e, role, translation),
                        )
                        &&& final(self).lobby.players@ == old(self).lobby.players@.insert(
                            id,
                            PlayerInfo { client_entity: e, server_entity: entity },
                        )
                        &&& final(self).mapping.entities@ == old(self).mapping.entities@.insert(
                            entity,
                            e,
                        )
                    } else {
                        r is Nothing
                    }
                },
                ServerMessages::PlayerRemove { id } => {
                    if old(self).lobby.players@.contains_key(id) {
                        let info = old(self).lobby.players@[id];
                        &&& r == ClientAction::Despawn { entity: info.client_entity }
                        &&& final(self).entities@ == without_entity(
                            old(self).entities@,
                            info.client_entity,
                        )
                        &&& final(self).lobby.players@ == old(self).lobby.players@.remove(id)
                        &&& final(self).mapping.entities@ == old(self).mapping.entities@.remove(
                            info.server_entity,
                        )
                        &&& final(self).next_entity == old(self).next_entity
                    } else {
                        r is Nothing
                    }
                },
                ServerMessages::SpawnProjectile { entity, translation, object_type } => {
                    let e = old(self).next_entity;
                    if translation.is_position() && e < u64::MAX {
                        &&& r == ClientAction::SpawnObject { entity: e, translation, object_type }
                        &&& final(self).next_entity == e + 1
                        &&& final(self).entities@ == old(self).entities@.push(
                            spawned(e, EntityRole::RemoteExtrapolated, translation),
                        )
                        &&& final(self).lobby.players@ == old(self).lobby.players@
                        &&& final(self).mapping.entities@ == old(self).mapping.entities@.insert(
                            entity,
                            e,
                        )
                    } else {
                        r is Nothing
                    }
                },
                ServerMessages::DespawnProjectile { entity } => {
                    if old(self).mapping.entities@.contains_key(entity) {
                        let c = old(self).mapping.entities@[entity];
                        &&& r == ClientAction::Despawn { entity: c }
                        &&& final(self).entities@ == without_entity(old(self).entities@, c)
                        &&& final(self).lobby.players@ == old(self).lobby.players@
                        &&& final(self).mapping.entities@ == old(self).mapping.entities@.remove(
                            entity,
                        )
                        &&& final(self).next_entity == old(self).next_entity
                    } else {
                        r is Nothing
                    }
                },
            },
    {
        match message {
            ServerMessages::PlayerCreate { id, entity, translation } => {
                let controlled = id == self.client_id;
                let role = if controlled {
                    EntityRole::Controlled
                } else {
                    EntityRole::RemoteExtrapolated
                };
                match self.spawn(role, translation) {
                    None => ClientAction::Nothing,
                    Some(e) => {
                        self.lobby.players.insert(
                            id,
                            PlayerInfo { client_entity: e, server_entity: entity },
                        );
                        self.mapping.entities.insert(entity, e);
                        ClientAction::SpawnPlayer { entity: e, translation, controlled }
                    },
                }
            },
            ServerMessages::PlayerRemove { id } => {
                match self.lobby.players.remove(&id) {
                    None => ClientAction::Nothing,
                    Some(info) => {
                        self.remove_entity(info.client_entity);
                        self.mapping.entities.remove(&info.server_entity);
                        ClientAction::Despawn { entity: info.client_entity }
                    },
                }
            },
            ServerMessages::SpawnProjectile { entity, translation, object_type } => {
                match self.spawn(EntityRole::RemoteExtrapolated, translation) {
                    None => ClientAction::Nothing,
                    Some(e) => {
                        self.mapping.entities.insert(entity, e);
                        ClientAction::SpawnObject { entity: e, translation, object_type }
                    },
                }
            },
            ServerMessages::DespawnProjectile { entity } => {
                match self.mapping.entities.remove(&entity) {
                    None => ClientAction::Nothing,
                    Some(c) => {
                        self.remove_entity(c);
                        ClientAction::Despawn { entity: c }
                    },
                }
            },
        }
    }
}

/// Whether every component of `t` is within the world bounds.
pub fn within_bounds(t: &Vec3) -> (r: bool)
    ensures
        r == t.is_position(),
{
    let l = crate::vector::POSITION_LIMIT;
    -l <= t.x && t.x <= l && -l <= t.y && t.y <= l && -l <= t.z && t.z <= l
}

/// Whether every component of `v` is within the speed bounds.
pub fn within_speed(v: &Vec3) -> (r: bool)
    ensures
        r == v.is_speed(),
{
    let l = crate::vector::SPEED_LIMIT;
    -l <= v.x && v.x <= l && -l <= v.y && v.y <= l && -l <= v.z && v.z <= l
}

impl Client {
    /// Applies one snapshot entry (see `entry_applied`).
    fn apply_entry(
        &mut self,
        sid: u64,
        t: Vec3,
        v: Vec3,
        rot: Option<Quat>,
        tick: u32,
        last_input: Option<u32>,
    )
        requires
            old(self).wf(),
        ensures
            final(self).wf(),
            final(self).reconciled() == entry_applied(
                old(self).reconciled(),
                old(self).mapping.entities@,
                sid,
                t,
                v,
                rot,
                tick,
                last_input,
            ),
            final(self).lobby.players@ == old(self).lobby.players@,
            final(self).mapping.entities@ == old(self).mapping.entities@,
            final(self).most_recent_tick == old(self).most_recent_tick,
            final(self).next_entity == old(self).next_entity,
            final(self).client_id == old(self).client_id,
    {
        if !(within_bounds(&t) && within_speed(&v)) {
            return;
        }
        let c = match self.mapping.entities.get(&sid) {
            None => {
                return;
            },
            Some(c) => *c,
        };
        let j = match self.find_entity(c) {
            None => {
                return;
            },
            Some(j) => j,
        };
        proof {
            lemma_find_from(self.entities@, c, 0);
        }
        let e = self.entities[j];
        assert(e.wf());
        if e.role == EntityRole::Controlled {
            if rot.is_some() {
                return;
            }
            self.last_server_serial = last_input;
            match last_input {
                Some(acknowledged) => self.input_queue.discard_acknowledged(acknowledged),
                None => {},
            }
            let predicted = replay(t, &self.input_queue);
            self.entities.set(j, ClientEntity { translation: predicted, from_server: t, ..e });
        } else {
            let rotation = match rot {
                Some(r) => r,
                None => e.rotation,
            };
            self.entities.set(
                j,
                ClientEntity {
                    translation: t,
                    from_server: t,
                    rotation,
                    extrapolate: VelocityExtrapolate { velocity: v, base_tick: tick },
                    ..e
                },
            );
        }
        assert forall|k: int| 0 <= k < self.entities@.len() implies #[trigger] self.entities@[k].wf() by {
            if k != j {
                assert(self.entities@[k] == old(self).entities@[k]);
            }
        }
    }

    /// Applies a snapshot from the server. Returns whether it was applied:
    /// only a well-formed snapshot whose tick exceeds the newest one applied
    /// so far is, so stale and duplicate snapshots are dropped. An applied
    /// snapshot resets the tick counters to its tick and updates each known
    /// entity that it reports (see `frame_applied`): the controlled entity
    /// is reconciled, the others are placed and dead-reckoned anew.
    pub fn apply_frame(&mut self, frame: &NetworkFrame) -> (r: bool)
        requires
            old(self).wf(),
        ensures
            final(self).wf(),
            r == (frame.wf() && accepts(old(self).most_recent_tick, frame.tick)),
            !r ==> final(self).reconciled() == old(self).reconciled() && final(self).most_recent_tick == old(self).most_recent_tick,
            r ==> final(self).most_recent_tick == Some(
                MostRecentTick { from_server: frame.tick, predicted: frame.tick },
            ) && final(self).reconciled() == frame_applied(
                old(self).reconciled(),
                old(self).mapping.entities@,
                frame,
            ),
            final(self).lobby.players@ == old(self).lobby.players@,
            final(self).mapping.entities@ == old(self).mapping.entities@,
            final(self).next_entity == old(self).next_entity,
            final(self).client_id == old(self).client_id,
    {
        let n = frame.entities.entities.len();
        let m = frame.with_rotation.entities.len();
        if !(frame.entities.translations.len() == n && frame.entities.velocities.len() == n
            && frame.with_rotation.translations.len() == m && frame.with_rotation.velocities.len()
            == m && frame.with_rotation.rotations.len() == m) {
            return false;
        }
        match self.most_recent_tick {
            Some(t) => {
                if t.from_server >= frame.tick {
                    return false;
                }
            },
            None => {},
        }
        self.most_recent_tick = Some(
            MostRecentTick { from_server: frame.tick, predicted: frame.tick },
        );
        let ghost start = self.reconciled();
        let ghost mapping = self.mapping.entities@;
        let mut i: usize = 0;
        while i < n
            invariant
                self.wf(),
                frame.wf(),
                n == frame.entities.entities@.len(),
                0 <= i <= n,
                self.mapping.entities@ == mapping,
                self.reconciled() == plain_applied(start, mapping, frame, i as int),
                self.lobby.players@ == old(self).lobby.players@,
                self.next_entity == old(self).next_entity,
                self.client_id == old(self).client_id,
                self.most_recent_tick == Some(
                    MostRecentTick { from_server: frame.tick, predicted: frame.tick },
                ),
            decreases n - i,
        {
            self.apply_entry(
                frame.entities.entities[i],
                frame.entities.translations[i],
                frame.entities.velocities[i],
                None,
                frame.tick,
                frame.last_player_input,
            );
            i = i + 1;
        }
        let ghost plain = self.reconciled();
        let mut k: usize = 0;
        while k < m
            invariant
                self.wf(),
                frame.wf(),
                m == frame.with_rotation.entities@.len(),
                0 <= k <= m,
                self.mapping.entities@ == mapping,
                self.reconciled() == rotated_applied(plain, mapping, frame, k as int),
                plain == plain_applied(start, mapping, frame, n as int),
                self.lobby.players@ == old(self).lobby.players@,
                self.next_entity == old(self).next_entity,
                self.client_id == old(self).client_id,
                self.most_recent_tick == Some(
                    MostRecentTick { from_server: frame.tick, predicted: frame.tick },
                ),
            decreases m - k,
        {
            self.apply_entry(
                frame.with_rotation.entities[k],
                frame.with_rotation.translations[k],
                frame.with_rotation.velocities[k],
                Some(frame.with_rotation.rotations[k]),
                frame.tick,
                frame.last_player_input,
            );
            k = k + 1;
        }
        true
    }

    /// One render step of dead reckoning: every remotely driven entity is
    /// placed where its last report extrapolates to at the predicted tick,
    /// and the predicted tick advances by one (it stays put at its maximum).
    /// Before any snapshot nothing happens.
    pub fn predict_entities(&mut self)
        requires
            old(self).wf(),
        ensures
            final(self).wf(),
            final(self).input_queue@ == old(self).input_queue@,
            final(self).last_server_serial == old(self).last_server_serial,
            final(self).lobby.players@ == old(self).lobby.players@,
            final(self).mapping.entities@ == old(self).mapping.entities@,
            final(self).next_entity == old(self).next_entity,
            final(self).client_id == old(self).client_id,
            match old(self).most_recent_tick {
                None => final(self).entities@ == old(self).entities@
                    && final(self).most_recent_tick.is_none(),
                Some(t) => {
                    &&& final(self).entities@.len() == old(self).entities@.len()
                    &&& forall|j: int|
                        0 <= j < old(self).entities@.len() ==> final(self).entities@[j]
                            == predicted_entity(#[trigger] old(self).entities@[j], t.predicted)
                    &&& final(self).most_recent_tick == Some(
                        MostRecentTick {
                            from_server: t.from_server,
                            predicted: if t.predicted < u32::MAX {
                                (t.predicted + 1) as u32
                            } else {
                                t.predicted
                            },
                        },
                    )
                },
            },
    {
        let tick = match self.most_recent_tick {
            None => {
                return;
            },
            Some(t) => t,
        };
        let n = self.entities.len();
        let mut j: usize = 0;
        while j < n
            invariant
                self.wf(),
                n == self.entities@.len(),
                n == old(self).entities@.len(),
                0 <= j <= n,
                forall|k: int|
                    0 <= k < j ==> self.entities@[k] == predicted_entity(
                        #[trigger] old(self).entities@[k],
                        tick.predicted,
                    ),
                forall|k: int| j <= k < n ==> self.entities@[k] == #[trigger] old(self).entities@[k],
                self.input_queue@ == old(self).input_queue@,
                self.lobby.players@ == old(self).lobby.players@,
                self.mapping.entities@ == old(self).mapping.entities@,
                self.next_entity == old(self).next_entity,
                self.client_id == old(self).client_id,
                self.most_recent_tick == old(self).most_recent_tick,
                old(self).most_recent_tick == Some(tick),
                self.last_server_serial == old(self).last_server_serial,
            decreases n - j,
        {
            let e = self.entities[j];
            assert(e.wf());
            if e.role == EntityRole::RemoteExtrapolated {
                let moved = e.extrapolate.apply(tick.predicted, e.from_server);
                self.entities.set(j, ClientEntity { translation: moved, ..e });
            }
            assert forall|k: int| 0 <= k < self.entities@.len() implies #[trigger] self.entities@[k].wf() by {
                if k != j {
                    assert(self.entities@[k] == old(self).entities@[k] || k < j);
                }
            }
            j = j + 1;
        }
        let next = if tick.predicted < u32::MAX {
            tick.predicted + 1
        } else {
            tick.predicted
        };
        self.most_recent_tick = Some(MostRecentTick { from_server: tick.from_server, predicted: next });
    }

    /// Predicts one local input: queues it for the server's acknowledgement
    /// and moves the controlled entity by one kinematic step. A stale or
    /// duplicate serial is refused and changes nothing.
    pub fn predict_local(&mut self, input: FpsControllerInput) -> (r: bool)
        requires
            old(self).wf(),
            input.wf(),
        ensures
            final(self).wf(),
            r == (old(self).input_queue@.len() == 0 || old(self).input_queue@.last().serial
                < input.serial),
            r ==> final(self).input_queue@ == old(self).input_queue@.push(input),
            !r ==> final(self).input_queue@ == old(self).input_queue@ && final(self).entities@
                == old(self).entities@,
            final(self).entities@.len() == old(self).entities@.len(),
            r ==> forall|j: int|
                0 <= j < old(self).entities@.len() ==> final(self).entities@[j] == locally_moved(
                    #[trigger] old(self).entities@[j],
                    input,
                ),
            final(self).lobby.players@ == old(self).lobby.players@,
            final(self).mapping.entities@ == old(self).mapping.entities@,
            final(self).most_recent_tick == old(self).most_recent_tick,
            final(self).next_entity == old(self).next_entity,
            final(self).client_id == old(self).client_id,
            final(self).last_server_serial == old(self).last_server_serial,
    {
        if !self.input_queue.push_newer(input) {
            return false;
        }
        self.move_controlled(input);
        true
    }

    /// Moves the controlled entity by one kinematic step of `input`.
    fn move_controlled(&mut self, input: FpsControllerInput)
        requires
            old(self).wf(),
            input.wf(),
        ensures
            final(self).wf(),
            final(self).input_queue@ == old(self).input_queue@,
            final(self).entities@.len() == old(self).entities@.len(),
            forall|j: int|
                0 <= j < old(self).entities@.len() ==> final(self).entities@[j] == locally_moved(
                    #[trigger] old(self).entities@[j],
                    input,
                ),
            final(self).lobby.players@ == old(self).lobby.players@,
            final(self).mapping.entities@ == old(self).mapping.entities@,
            final(self).most_recent_tick == old(self).most_recent_tick,
            final(self).next_entity == old(self).next_entity,
            final(self).client_id == old(self).client_id,
            final(self).last_server_serial == old(self).last_server_serial,
    {
        let n = self.entities.len();
        let mut j: usize = 0;
        while j < n
            invariant
                self.wf(),
                input.wf(),
                n == self.entities@.len(),
                n == old(self).entities@.len(),
                0 <= j <= n,
                forall|k: int|
                    0 <= k < j ==> self.entities@[k] == locally_moved(
                        #[trigger] old(self).entities@[k],
                        input,
                    ),
                forall|k: int| j <= k < n ==> self.entities@[k] == #[trigger] old(self).entities@[k],
                self.input_queue@ == old(self).input_queue@,
                self.lobby.players@ == old(self).lobby.players@,
                self.mapping.entities@ == old(self).mapping.entities@,
                self.next_entity == old(self).next_entity,
                self.client_id == old(self).client_id,
                self.most_recent_tick == old(self).most_recent_tick,
                self.last_server_serial == old(self).last_server_serial,
            decreases n - j,
        {
            let e = self.entities[j];
            assert(e.wf());
            if e.role == EntityRole::Controlled {
                let moved = step_translation(e.translation, &input);
                self.entities.set(j, ClientEntity { translation: moved, ..e });
            }
            assert forall|k: int| 0 <= k < self.entities@.len() implies #[trigger] self.entities@[k].wf() by {
                if k != j {
                    assert(self.entities@[k] == old(self).entities@[k] || k < j);
                }
            }
            j = j + 1;
        }
    }
}

/// The snapshot tick that an input reports back to the server.
pub open spec fn tick_stamp(t: Option<MostRecentTick>) -> Option<u32> {
    match t {
        None => None,
        Some(t) => Some(t.from_server),
    }
}

impl Client {
    /// One local input step: builds the command from the held keys and the
    /// look heading with the next serial, stamped with the newest snapshot
    /// tick received (see `fps_controller_input`), appends it to the local
    /// queue, and moves the controlled entity by one kinematic step. Returns
    /// the command to send to the server. `None`, with nothing changed, when
    /// input is disabled, serials are exhausted, or the counter is not past
    /// the newest queued serial.
    pub fn next_input(
        &mut self,
        config: &FpsControllerConfig,
        keys: &KeyState,
        heading_x: i64,
        heading_z: i64,
        serial: &mut FpsControllerSerial,
    ) -> (r: Option<FpsControllerInput>)
        requires
            old(self).wf(),
            within(heading_x as int, UNIT as int),
            within(heading_z as int, UNIT as int),
            heading_x * heading_x + heading_z * heading_z <= UNIT * UNIT,
        ensures
            final(self).wf(),
            ({
                let c = command_of(
                    old(serial).next,
                    *keys,
                    heading_x,
                    heading_z,
                    tick_stamp(old(self).most_recent_tick),
                );
                let ok = config.enable_input && old(serial).next < u32::MAX && (old(self).input_queue@.len() == 0 || old(self).input_queue@.last().serial < old(serial).next);
                &&& ok ==> {
                    &&& r == Some(c)
                    &&& c.wf()
                    &&& final(serial).next == old(serial).next + 1
                    &&& final(self).input_queue@ == old(self).input_queue@.push(c)
                    &&& final(self).entities@.len() == old(self).entities@.len()
                    &&& forall|j: int|
                        0 <= j < old(self).entities@.len() ==> final(self).entities@[j]
                            == locally_moved(#[trigger] old(self).entities@[j], c)
                }
                &&& !ok ==> r is None && final(serial).next == old(serial).next && final(self).input_queue@ == old(self).input_queue@ && final(self).entities@ == old(self).entities@
            }),
            final(self).lobby.players@ == old(self).lobby.players@,
            final(self).mapping.entities@ == old(self).mapping.entities@,
            final(self).most_recent_tick == old(self).most_recent_tick,
            final(self).next_entity == old(self).next_entity,
            final(self).client_id == old(self).client_id,
            final(self).last_server_serial == old(self).last_server_serial,
    {
        match self.input_queue.last_serial() {
            Some(last) => {
                if last >= serial.next {
                    return None;
                }
            },
            None => {},
        }
        let tick = match self.most_recent_tick {
            None => None,
            Some(t) => Some(t.from_server),
        };
        match fps_controller_input(config, keys, heading_x, heading_z, tick, serial, &mut self.input_queue) {
            None => None,
            Some(input) => {
                self.move_controlled(input);
                Some(input)
            },
        }
    }
}

/// On an increasing queue, what an acknowledgement of `s` leaves is still
/// increasing, newer than `s`, and unchanged by a second acknowledgement.
proof fn lemma_unacknowledged_newer(q: Seq<FpsControllerInput>, s: u32)
    requires
        serials_increasing(q),
    ensures
        serials_increasing(unacknowledged(q, Some(s))),
        forall|i: int|
            0 <= i < unacknowledged(q, Some(s)).len() ==> unacknowledged(q, Some(s))[i].serial
                > s,
        unacknowledged(unacknowledged(q, Some(s)), Some(s)) == unacknowledged(q, Some(s)),
{
    crate::input::lemma_acknowledged_len(q, s);
    crate::input::lemma_discard_idempotent(q, s);
    let k = acknowledged_len(q, s) as int;
    let rest = q.skip(k);
    assert forall|i: int, j: int| 0 <= i < j < rest.len() implies rest[i].serial
        < rest[j].serial by {
        assert(rest[i] == q[k + i] && rest[j] == q[k + j]);
    }
    assert forall|i: int| 0 <= i < rest.len() implies rest[i].serial > s by {
        assert(rest[i] == q[k + i]);
        if i > 0 {
            assert(q[k].serial < q[k + i].serial);
        }
    }
    assert(rest.skip(0) == rest);
}

/// What one snapshot entry leaves of a queue that is `q` or its
/// unacknowledged rest: again `q` or that rest.
proof fn lemma_entry_queue(
    q: Seq<FpsControllerInput>,
    st: Reconciled,
    mapping: Map<u64, u64>,
    sid: u64,
    t: Vec3,
    v: Vec3,
    rot: Option<Quat>,
    tick: u32,
    last_input: Option<u32>,
)
    requires
        serials_increasing(q),
        st.queue == q || st.queue == unacknowledged(q, last_input),
    ensures
        ({
            let r = entry_applied(st, mapping, sid, t, v, rot, tick, last_input).queue;
            r == q || r == unacknowledged(q, last_input)
        }),
{
    match last_input {
        None => {},
        Some(s) => {
            lemma_unacknowledged_newer(q, s);
        },
    }
}

proof fn lemma_plain_queue(
    q: Seq<FpsControllerInput>,
    st: Reconciled,
    mapping: Map<u64, u64>,
    frame: &NetworkFrame,
    n: int,
)
    requires
        serials_increasing(q),
        st.queue == q,
        frame.wf(),
        n <= frame.entities.entities@.len(),
    ensures
        ({
            let r = plain_applied(st, mapping, frame, n).queue;
            r == q || r == unacknowledged(q, frame.last_player_input)
        }),
    decreases n,
{
    if n > 0 {
        lemma_plain_queue(q, st, mapping, frame, n - 1);
        let prev = plain_applied(st, mapping, frame, n - 1);
        lemma_entry_queue(
            q,
            prev,
            mapping,
            frame.entities.entities@[n - 1],
            frame.entities.translations@[n - 1],
            frame.entities.velocities@[n - 1],
            None,
            frame.tick,
            frame.last_player_input,
        );
    }
}

proof fn lemma_rotated_queue(
    q: Seq<FpsControllerInput>,
    st: Reconciled,
    mapping: Map<u64, u64>,
    frame: &NetworkFrame,
    n: int,
)
    requires
        serials_increasing(q),
        st.queue == q || st.queue == unacknowledged(q, frame.last_player_input),
        frame.wf(),
        n <= frame.with_rotation.entities@.len(),
    ensures
        ({
            let r = rotated_applied(st, mapping, frame, n).queue;
            r == q || r == unacknowledged(q, frame.last_player_input)
        }),
    decreases n,
{
    if n > 0 {
        lemma_rotated_queue(q, st, mapping, frame, n - 1);
        let prev = rotated_applied(st, mapping, frame, n - 1);
        lemma_entry_queue(
            q,
            prev,
            mapping,
            frame.with_rotation.entities@[n - 1],
            frame.with_rotation.translations@[n - 1],
            frame.with_rotation.velocities@[n - 1],
            Some(frame.with_rotation.rotations@[n - 1]),
            frame.tick,
            frame.last_player_input,
        );
    }
}

/// Applying a whole snapshot to a client whose input serials increase
/// either leaves the queue alone (the controlled entity is not reported) or
/// removes exactly the longest prefix of serials up to the acknowledged one,
/// so that every input left is newer than it.
pub proof fn lemma_frame_discards_acknowledged(
    st: Reconciled,
    mapping: Map<u64, u64>,
    frame: &NetworkFrame,
)
    requires
        serials_increasing(st.queue),
        frame.wf(),
    ensures
        ({
            let r = frame_applied(st, mapping, frame).queue;
            &&& r == st.queue || r == unacknowledged(st.queue, frame.last_player_input)
            &&& (frame.last_player_input is Some && r != st.queue) ==> forall|i: int|
                0 <= i < r.len() ==> r[i].serial > frame.last_player_input->0
        }),
{
    lemma_plain_queue(st.queue, st, mapping, frame, frame.entities.entities@.len() as int);
    let plain = plain_applied(st, mapping, frame, frame.entities.entities@.len() as int);
    lemma_rotated_queue(
        st.queue,
        plain,
        mapping,
        frame,
        frame.with_rotation.entities@.len() as int,
    );
    match frame.last_player_input {
        None => {},
        Some(s) => {
            lemma_unacknowledged_newer(st.queue, s);
        },
    }
}

} // verus!
