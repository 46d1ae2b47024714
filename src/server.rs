use std::collections::HashMap;
use vstd::prelude::*;

use crate::controller::{FpsController, fps_controller_move, run_inputs, valid_step, not_before, normalize};
use crate::frame::{NetworkFrame, Quat};
use crate::input::{FpsControllerInput, FpsControllerInputQueue, input_is_valid};
use crate::vector::{
    POSITION_LIMIT, SPEED_LIMIT, UNIT, Vec3, clamp, div_toward_zero, lemma_div_toward_zero_shrinks,
    mul_div, within,
};
use crate::wire::{ObjectType, PlayerCommand, ServerMessages};

verus! {

broadcast use vstd::std_specs::hash::group_hash_axioms;

/// A connected player on the server.
pub struct ServerPlayer {
    pub id: u64,
    pub entity: u64,
    pub translation: Vec3,
    pub controller: FpsController,
    pub input_queue: FpsControllerInputQueue,
    /// The newest snapshot tick that the player's client reported.
    pub last_tick: Option<u32>,
}

/// A moving object that the server simulates: a projectile, or a box that
/// also carries an orientation.
#[derive(Clone, Copy, Debug, PartialEq, Eq, Structural)]
pub struct ServerObject {
    pub entity: u64,
    pub translation: Vec3,
    pub velocity: Vec3,
    pub rotation: Quat,
    /// Milliseconds left before a projectile expires.
    pub lifetime_ms: u64,
}

/// Connected players by player id: the entity of each.
pub struct ServerLobby {
    pub players: HashMap<u64, u64>,
}

/// The server world.
pub struct Server {
    pub lobby: ServerLobby,
    pub players: Vec<ServerPlayer>,
    pub projectiles: Vec<ServerObject>,
    pub cubes: Vec<ServerObject>,
    /// Tick of the next snapshot.
    pub tick: u32,
    pub next_entity: u64,
}

/// Entities of a run of players.
pub open spec fn player_entities(ps: Seq<ServerPlayer>) -> Seq<u64> {
    ps.map_values(|p: ServerPlayer| p.entity)
}

/// Entities of a run of objects.
pub open spec fn object_entities(os: Seq<ServerObject>) -> Seq<u64> {
    os.map_values(|o: ServerObject| o.entity)
}

/// Every entity that a snapshot of the world reports, in order: players,
/// projectiles, then boxes.
pub open spec fn snapshot_entities(
    ps: Seq<ServerPlayer>,
    projectiles: Seq<ServerObject>,
    cubes: Seq<ServerObject>,
) -> Seq<u64> {
    player_entities(ps) + object_entities(projectiles) + object_entities(cubes)
}

/// `ps` without the players with id `id`, in order.
pub open spec fn without_player(ps: Seq<ServerPlayer>, id: u64) -> Seq<ServerPlayer>
    decreases ps.len(),
{
    if ps.len() == 0 {
        ps
    } else {
        let init = without_player(ps.drop_last(), id);
        if ps.last().id == id {
            init
        } else {
            init.push(ps.last())
        }
    }
}

pub open spec fn distinct(s: Seq<u64>) -> bool {
    forall|i: int, j: int| 0 <= i < s.len() && 0 <= j < s.len() && i != j ==> s[i] != s[j]
}

/// Every player left by `without_player` is one of those given, and
/// not one with the removed id.
pub proof fn lemma_without_player(ps: Seq<ServerPlayer>, id: u64)
    ensures
        forall|k: int|
            0 <= k < without_player(ps, id).len() ==> exists|i: int|
                0 <= i < ps.len() && ps[i] == #[trigger] without_player(ps, id)[k] && ps[i].id
                    != id,
        without_player(ps, id).len() <= ps.len(),
    decreases ps.len(),
{
    if ps.len() > 0 {
        let init = ps.drop_last();
        lemma_without_player(init, id);
        let w = without_player(ps, id);
        assert forall|k: int| 0 <= k < w.len() implies exists|i: int|
            0 <= i < ps.len() && ps[i] == #[trigger] w[k] && ps[i].id != id by {
            if k < without_player(init, id).len() {
                let i = choose|i: int|
                    0 <= i < init.len() && init[i] == #[trigger] without_player(init, id)[k]
                        && init[i].id != id;
                assert(ps[i] == w[k]);
            } else {
                assert(ps[ps.len() - 1] == w[k]);
            }
        }
    }
}

/// After a player disconnects, a snapshot of the world no longer reports
/// its entity, and no player with its id is left.
pub proof fn lemma_disconnect_forgets(
    ps: Seq<ServerPlayer>,
    projectiles: Seq<ServerObject>,
    cubes: Seq<ServerObject>,
    i: int,
)
    requires
        distinct(snapshot_entities(ps, projectiles, cubes)),
        0 <= i < ps.len(),
    ensures
        !snapshot_entities(without_player(ps, ps[i].id), projectiles, cubes).contains(ps[i].entity),
        forall|k: int|
            0 <= k < without_player(ps, ps[i].id).len() ==> (#[trigger] without_player(
                ps,
                ps[i].id,
            )[k]).id != ps[i].id,
{
    let id = ps[i].id;
    let e = ps[i].entity;
    let all = snapshot_entities(ps, projectiles, cubes);
    let w = without_player(ps, id);
    lemma_without_player(ps, id);
    let after = snapshot_entities(w, projectiles, cubes);
    let np = ps.len() as int;
    let nw = w.len() as int;
    let nq = projectiles.len() as int;
    assert(all[i] == e);
    if after.contains(e) {
        let k = choose|k: int| 0 <= k < after.len() && after[k] == e;
        if k < nw {
            assert(after[k] == w[k].entity);
            let j = choose|j: int| 0 <= j < ps.len() && ps[j] == #[trigger] w[k] && ps[j].id != id;
            assert(all[j] == e);
            assert(j != i);
        } else if k < nw + nq {
            assert(after[k] == projectiles[k - nw].entity);
            assert(all[np + (k - nw)] == e);
        } else {
            assert(after[k] == cubes[k - nw - nq].entity);
            assert(all[np + nq + (k - nw - nq)] == e);
        }
    }
}

/// A player with id `id` and nobody else with it is removed by
/// `without_player` exactly at its index.
proof fn lemma_without_unique(ps: Seq<ServerPlayer>, id: u64, i: int)
    requires
        0 <= i < ps.len(),
        ps[i].id == id,
        forall|j: int| 0 <= j < ps.len() && j != i ==> ps[j].id != id,
    ensures
        without_player(ps, id) == ps.remove(i),
    decreases ps.len(),
{
    let init = ps.drop_last();
    if i == ps.len() - 1 {
        lemma_without_absent(init, id);
        assert(init == ps.remove(i));
    } else {
        lemma_without_unique(init, id, i);
        assert(init.remove(i).push(ps.last()) == ps.remove(i));
    }
}

/// Without a player with id `id`, `without_player` changes nothing.
proof fn lemma_without_absent(ps: Seq<ServerPlayer>, id: u64)
    requires
        forall|j: int| 0 <= j < ps.len() ==> ps[j].id != id,
    ensures
        without_player(ps, id) == ps,
    decreases ps.len(),
{
    if ps.len() > 0 {
        lemma_without_absent(ps.drop_last(), id);
        assert(ps.drop_last().push(ps.last()) == ps);
    }
}

/// Where a player enters the world.
pub open spec fn spawn_point() -> Vec3 {
    Vec3 { x: 0, y: 510, z: 0 }
}

/// The creation message that tells a client about player `p`.
pub open spec fn create_message(p: ServerPlayer) -> ServerMessages {
    ServerMessages::PlayerCreate { id: p.id, entity: p.entity, translation: p.translation }
}

impl Server {
    pub open spec fn players_wf(&self) -> bool {
        forall|i: int|
            0 <= i < self.players@.len() ==> {
                let p = #[trigger] self.players@[i];
                p.controller.wf() && p.input_queue.wf() && p.translation.is_position()
            }
    }

    pub open spec fn objects_wf(os: Seq<ServerObject>) -> bool {
        forall|i: int|
            0 <= i < os.len() ==> (#[trigger] os[i]).translation.is_position()
                && os[i].velocity.is_speed()
    }

    pub open spec fn snapshot(&self) -> Seq<u64> {
        snapshot_entities(self.players@, self.projectiles@, self.cubes@)
    }

    /// Player ids and entity ids are unique, every entity id was issued
    /// before `next_entity`, and the lobby maps exactly the players' ids to
    /// their entities.
    pub open spec fn wf(&self) -> bool {
        &&& self.players_wf()
        &&& Self::objects_wf(self.projectiles@)
        &&& Self::objects_wf(self.cubes@)
        &&& distinct(self.snapshot())
        &&& forall|k: int| 0 <= k < self.snapshot().len() ==> #[trigger] self.snapshot()[k] < self.next_entity
        &&& forall|i: int, j: int|
            0 <= i < self.players@.len() && 0 <= j < self.players@.len() && i != j
                ==> self.players@[i].id != self.players@[j].id
        &&& forall|i: int|
            0 <= i < self.players@.len() ==> self.lobby.players@.contains_key(
                (#[trigger] self.players@[i]).id,
            ) && self.lobby.players@[self.players@[i].id] == self.players@[i].entity
        &&& forall|id: u64|
            #[trigger] self.lobby.players@.contains_key(id) ==> exists|i: int|
                0 <= i < self.players@.len() && self.players@[i].id == id
    }

    pub fn new() -> (r: Server)
        ensures
            r.wf(),
            r.players@.len() == 0,
            r.projectiles@.len() == 0,
            r.cubes@.len() == 0,
            r.lobby.players@ == Map::<u64, u64>::empty(),
            r.tick == 0,
            r.next_entity == 0,
    {
        let r = Server {
            lobby: ServerLobby { players: HashMap::new() },
            players: Vec::new(),
            projectiles: Vec::new(),
            cubes: Vec::new(),
            tick: 0,
            next_entity: 0,
        };
        assert(r.snapshot() =~= Seq::<u64>::empty());
        r
    }

    /// Index of the player with id `id`.
    pub fn find_player(&self, id: u64) -> (r: Option<usize>)
        ensures
            r matches Some(i) ==> i < self.players@.len() && self.players@[i as int].id == id,
            r is None ==> forall|i: int| 0 <= i < self.players@.len() ==> self.players@[i].id != id,
    {
        let mut i: usize = 0;
        while i < self.players.len()
            invariant
                0 <= i <= self.players@.len(),
                forall|k: int| 0 <= k < i ==> self.players@[k].id != id,
            decreases self.players@.len() - i,
        {
            if self.players[i].id == id {
                return Some(i);
            }
            i = i + 1;
        }
        None
    }

    /// Connects player `id`: spawns its entity with the next free entity id
    /// at the spawn point, with a fresh controller and an empty input queue.
    /// Returns the creation messages of the players already present, for
    /// the newcomer, and the newcomer's own creation message, for everyone.
    /// A player already connected, or exhausted entity ids, give `None` and
    /// change nothing.
    pub fn connect(&mut self, id: u64) -> (r: Option<(Vec<ServerMessages>, ServerMessages)>)
        requires
            old(self).wf(),
        ensures
            final(self).wf(),
            r is Some == (!old(self).lobby.players@.contains_key(id) && old(self).next_entity
                < u64::MAX),
            r is None ==> final(self).players@ == old(self).players@ && final(self).lobby.players@
                == old(self).lobby.players@ && final(self).next_entity == old(self).next_entity,
            r matches Some((existing, created)) ==> {
                let e = old(self).next_entity;
                &&& existing@ == old(self).players@.map_values(|p: ServerPlayer| create_message(p))
                &&& created == ServerMessages::PlayerCreate {
                    id,
                    entity: e,
                    translation: spawn_point(),
                }
                &&& final(self).players@.len() == old(self).players@.len() + 1
                &&& final(self).players@.drop_last() == old(self).players@
                &&& final(self).players@.last().id == id
                &&& final(self).players@.last().entity == e
                &&& final(self).players@.last().translation == spawn_point()
                &&& final(self).players@.last().controller == FpsController::initial()
                &&& final(self).players@.last().input_queue@.len() == 0
                &&& final(self).lobby.players@ == old(self).lobby.players@.insert(id, e)
                &&& final(self).next_entity == e + 1
            },
            final(self).projectiles@ == old(self).projectiles@,
            final(self).cubes@ == old(self).cubes@,
            final(self).tick == old(self).tick,
    {
        if self.lobby.players.contains_key(&id) || self.next_entity == u64::MAX {
            return None;
        }
        let mut existing: Vec<ServerMessages> = Vec::new();
        let mut i: usize = 0;
        while i < self.players.len()
            invariant
                0 <= i <= self.players@.len(),
                self.players@ == old(self).players@,
                existing@ == self.players@.take(i as int).map_values(
                    |p: ServerPlayer| create_message(p),
                ),
            decreases self.players@.len() - i,
        {
            let p = &self.players[i];
            existing.push(
                ServerMessages::PlayerCreate { id: p.id, entity: p.entity, translation: p.translation },
            );
            assert(self.players@.take(i + 1) == self.players@.take(i as int).push(self.players@[i as int]));
            i = i + 1;
        }
        assert(self.players@.take(i as int) == self.players@);
        let e = self.next_entity;
        let spawn = Vec3 { x: 0, y: 510, z: 0 };
        let ghost before = self.snapshot();
        self.players.push(
            ServerPlayer {
                id,
                entity: e,
                translation: spawn,
                controller: FpsController::default(),
                input_queue: FpsControllerInputQueue::new(),
                last_tick: None,
            },
        );
        self.lobby.players.insert(id, e);
        self.next_entity = e + 1;
        proof {
            let np = old(self).players@.len() as int;
            let ps = self.players@;
            assert(ps.drop_last() == old(self).players@);
            assert(player_entities(ps) == player_entities(old(self).players@).push(e));
            let snap = self.snapshot();
            assert forall|k: int| 0 <= k < snap.len() implies (if k < np {
                snap[k] == before[k]
            } else if k == np {
                snap[k] == e
            } else {
                snap[k] == before[k - 1]
            }) by {}
            assert forall|a: int, b: int|
                0 <= a < snap.len() && 0 <= b < snap.len() && a != b implies snap[a] != snap[b] by {
                if a != np && b != np {
                    let a2 = if a < np { a } else { a - 1 };
                    let b2 = if b < np { b } else { b - 1 };
                    assert(before[a2] != before[b2]);
                } else if a == np {
                    let b2 = if b < np { b } else { b - 1 };
                    assert(before[b2] < e);
                } else {
                    let a2 = if a < np { a } else { a - 1 };
                    assert(before[a2] < e);
                }
            }
            assert forall|k: int| 0 <= k < snap.len() implies #[trigger] snap[k] < self.next_entity by {
                if k != np {
                    let k2 = if k < np { k } else { k - 1 };
                    assert(before[k2] < e);
                }
            }
            assert forall|a: int| 0 <= a < np implies old(self).lobby.players@.contains_key(
                (#[trigger] ps[a]).id,
            ) by {
                assert(ps[a] == old(self).players@[a]);
            }
            assert forall|a: int, b: int|
                0 <= a < ps.len() && 0 <= b < ps.len() && a != b implies ps[a].id != ps[b].id by {
                if a < np && b < np {
                    assert(ps[a] == old(self).players@[a]);
                    assert(ps[b] == old(self).players@[b]);
                } else if a < np {
                    assert(ps[a] == old(self).players@[a]);
                } else {
                    assert(ps[b] == old(self).players@[b]);
                }
            }
            assert forall|a: int| 0 <= a < ps.len() implies self.lobby.players@.contains_key(
                (#[trigger] ps[a]).id,
            ) && self.lobby.players@[ps[a].id] == ps[a].entity by {
                if a < np {
                    assert(ps[a] == old(self).players@[a]);
                }
            }
            assert forall|x: u64| #[trigger] self.lobby.players@.contains_key(x) implies exists|a: int|
                0 <= a < ps.len() && ps[a].id == x by {
                if x != id {
                    let a = choose|a: int|
                        0 <= a < old(self).players@.len() && old(self).players@[a].id == x;
                    assert(ps[a] == old(self).players@[a]);
                } else {
                    assert(ps[np].id == x);
                }
            }
            assert forall|a: int| 0 <= a < ps.len() implies {
                let p = #[trigger] ps[a];
                p.controller.wf() && p.input_queue.wf() && p.translation.is_position()
            } by {
                if a < np {
                    assert(ps[a] == old(self).players@[a]);
                }
            }
        }
        Some((existing, ServerMessages::PlayerCreate { id, entity: e, translation: spawn }))
    }
}

/// Replacing one player by one with the same id and entity keeps the
/// entity list.
proof fn lemma_replace_player(a: Seq<ServerPlayer>, b: Seq<ServerPlayer>, i: int)
    requires
        a.len() == b.len(),
        0 <= i < a.len(),
        forall|j: int| 0 <= j < a.len() && j != i ==> a[j] == b[j],
        a[i].id == b[i].id,
        a[i].entity == b[i].entity,
    ensures
        player_entities(a) == player_entities(b),
{
    assert(player_entities(a) =~= player_entities(b));
}

/// Whether a player's stored state is usable by the integrator.
pub open spec fn player_ok(p: ServerPlayer) -> bool {
    p.controller.wf() && p.input_queue.wf() && p.translation.is_position()
}

impl Server {
    /// Keeps the world well formed after the player at `i` was replaced by
    /// one with the same id and entity.
    proof fn lemma_player_replaced(old_s: &Server, new_s: &Server, i: int)
        requires
            old_s.wf(),
            new_s.players@.len() == old_s.players@.len(),
            0 <= i < old_s.players@.len(),
            forall|j: int|
                0 <= j < old_s.players@.len() && j != i ==> new_s.players@[j]
                    == old_s.players@[j],
            new_s.players@[i].id == old_s.players@[i].id,
            new_s.players@[i].entity == old_s.players@[i].entity,
            player_ok(new_s.players@[i]),
            new_s.projectiles@ == old_s.projectiles@,
            new_s.cubes@ == old_s.cubes@,
            new_s.lobby.players@ == old_s.lobby.players@,
            new_s.next_entity == old_s.next_entity,
        ensures
            new_s.wf(),
            new_s.snapshot() == old_s.snapshot(),
    {
        lemma_replace_player(old_s.players@, new_s.players@, i);
        let ps = new_s.players@;
        assert forall|a: int| 0 <= a < ps.len() implies {
            let p = #[trigger] ps[a];
            p.controller.wf() && p.input_queue.wf() && p.translation.is_position()
        } by {
            if a != i {
                assert(ps[a] == old_s.players@[a]);
            }
        }
        assert forall|a: int, b: int|
            0 <= a < ps.len() && 0 <= b < ps.len() && a != b implies ps[a].id != ps[b].id by {
            assert(ps[a].id == old_s.players@[a].id);
            assert(ps[b].id == old_s.players@[b].id);
        }
        assert forall|a: int| 0 <= a < ps.len() implies new_s.lobby.players@.contains_key(
            (#[trigger] ps[a]).id,
        ) && new_s.lobby.players@[ps[a].id] == ps[a].entity by {
            assert(ps[a].id == old_s.players@[a].id);
            assert(ps[a].entity == old_s.players@[a].entity);
        }
        assert forall|x: u64| #[trigger] new_s.lobby.players@.contains_key(x) implies exists|a: int|
            0 <= a < ps.len() && ps[a].id == x by {
            let a = choose|a: int| 0 <= a < old_s.players@.len() && old_s.players@[a].id == x;
            assert(ps[a].id == old_s.players@[a].id);
        }
    }

    /// Disconnects player `id`: its entity, input queue and lobby entry go
    /// together, and the removal message for everyone is returned. An
    /// unknown id changes nothing but still yields the message.
    pub fn disconnect(&mut self, id: u64) -> (r: ServerMessages)
        requires
            old(self).wf(),
        ensures
            final(self).wf(),
            r == (ServerMessages::PlayerRemove { id }),
            final(self).players@ == without_player(old(self).players@, id),
            final(self).lobby.players@ == old(self).lobby.players@.remove(id),
            !final(self).lobby.players@.contains_key(id),
            final(self).projectiles@ == old(self).projectiles@,
            final(self).cubes@ == old(self).cubes@,
            final(self).tick == old(self).tick,
            final(self).next_entity == old(self).next_entity,
    {
        self.lobby.players.remove(&id);
        match self.find_player(id) {
            None => {
                proof {
                    lemma_without_absent(self.players@, id);
                    assert forall|x: u64| #[trigger] self.lobby.players@.contains_key(x) implies exists|a: int|
                        0 <= a < self.players@.len() && self.players@[a].id == x by {
                        assert(old(self).lobby.players@.contains_key(x));
                    }
                }
            },
            Some(i) => {
                let ghost before = self.snapshot();
                let ghost np = self.players@.len() as int;
                proof {
                    lemma_without_unique(self.players@, id, i as int);
                }
                self.players.remove(i);
                proof {
                    let ps = self.players@;
                    let snap = self.snapshot();
                    assert(player_entities(ps) =~= player_entities(old(self).players@).remove(
                        i as int,
                    ));
                    assert forall|k: int| 0 <= k < snap.len() implies snap[k] == before[if k < i {
                        k
                    } else {
                        k + 1
                    }] by {}
                    assert forall|a: int, b: int|
                        0 <= a < snap.len() && 0 <= b < snap.len() && a != b implies snap[a]
                        != snap[b] by {
                        let a2 = if a < i {
                            a
                        } else {
                            a + 1
                        };
                        let b2 = if b < i {
                            b
                        } else {
                            b + 1
                        };
                        assert(before[a2] != before[b2]);
                    }
                    assert forall|k: int| 0 <= k < snap.len() implies #[trigger] snap[k]
                        < self.next_entity by {
                        let k2 = if k < i {
                            k
                        } else {
                            k + 1
                        };
                        assert(before[k2] < self.next_entity);
                    }
                    assert forall|a: int| 0 <= a < ps.len() implies {
                        let p = #[trigger] ps[a];
                        p.controller.wf() && p.input_queue.wf() && p.translation.is_position()
                    } by {
                        let a2 = if a < i {
                            a
                        } else {
                            a + 1
                        };
                        assert(ps[a] == old(self).players@[a2]);
                    }
                    assert forall|a: int, b: int|
                        0 <= a < ps.len() && 0 <= b < ps.len() && a != b implies ps[a].id
                        != ps[b].id by {
                        let a2 = if a < i {
                            a
                        } else {
                            a + 1
                        };
                        let b2 = if b < i {
                            b
                        } else {
                            b + 1
                        };
                        assert(ps[a] == old(self).players@[a2]);
                        assert(ps[b] == old(self).players@[b2]);
                    }
                    assert forall|a: int| 0 <= a < ps.len() implies self.lobby.players@.contains_key(
                        (#[trigger] ps[a]).id,
                    ) && self.lobby.players@[ps[a].id] == ps[a].entity by {
                        let a2 = if a < i {
                            a
                        } else {
                            a + 1
                        };
                        assert(ps[a] == old(self).players@[a2]);
                        assert(a2 != i);
                    }
                    assert forall|x: u64| #[trigger] self.lobby.players@.contains_key(x) implies exists|
                        a: int,
                    | 0 <= a < ps.len() && ps[a].id == x by {
                        assert(old(self).lobby.players@.contains_key(x));
                        let a2 = choose|a: int|
                            0 <= a < old(self).players@.len() && old(self).players@[a].id == x;
                        assert(a2 != i);
                        let a = if a2 < i {
                            a2
                        } else {
                            a2 - 1
                        };
                        assert(ps[a] == old(self).players@[a2]);
                    }
                }
            },
        }
        ServerMessages::PlayerRemove { id }
    }

    /// Queues an input that player `id` sent, at the back of its queue in
    /// arrival order, and records the newest snapshot tick that the input
    /// reports. Serials are not checked here: the integrator drops stale
    /// and duplicate commands when it consumes them. Only a malformed
    /// input (axes or heading out of range) is refused. Returns whether it
    /// was queued.
    pub fn receive_input(&mut self, id: u64, input: FpsControllerInput) -> (r: bool)
        requires
            old(self).wf(),
        ensures
            final(self).wf(),
            final(self).players@.len() == old(self).players@.len(),
            forall|i: int|
                0 <= i < old(self).players@.len() && old(self).players@[i].id != id ==> final(self).players@[i] == old(self).players@[i],
            forall|i: int|
                0 <= i < old(self).players@.len() && old(self).players@[i].id == id ==> {
                    let p = old(self).players@[i];
                    let q = final(self).players@[i];
                    &&& q.id == p.id && q.entity == p.entity && q.translation == p.translation
                    &&& q.controller == p.controller
                    &&& q.last_tick == input.most_recent_tick
                    &&& r == input.wf()
                    &&& r ==> q.input_queue@ == p.input_queue@.push(input)
                    &&& !r ==> q.input_queue@ == p.input_queue@
                },
            (forall|i: int| 0 <= i < old(self).players@.len() ==> old(self).players@[i].id != id)
                ==> !r,
            final(self).lobby.players@ == old(self).lobby.players@,
            final(self).projectiles@ == old(self).projectiles@,
            final(self).cubes@ == old(self).cubes@,
            final(self).tick == old(self).tick,
            final(self).next_entity == old(self).next_entity,
    {
        let i = match self.find_player(id) {
            None => {
                return false;
            },
            Some(i) => i,
        };
        let mut p = self.players.remove(i);
        p.last_tick = input.most_recent_tick;
        let accepted = input_is_valid(&input);
        if accepted {
            p.input_queue.push_back(input);
        }
        self.players.insert(i, p);
        proof {
            assert forall|j: int| 0 <= j < old(self).players@.len() && j != i implies self.players@[j]
                == old(self).players@[j] by {}
            Self::lemma_player_replaced(old(self), self, i as int);
            assert forall|j: int|
                0 <= j < old(self).players@.len() && old(self).players@[j].id == id implies j
                == i by {}
        }
        accepted
    }

    /// Runs the movement integrator for player `id` over its queued input
    /// (see `fps_controller_move`): `grounded` is the ground probe's answer
    /// at the player's position, `dt` the step in milliseconds. Returns the
    /// velocity to hand to the player's physics body, if an input was
    /// applied; stale and duplicate inputs are dropped there. An unknown
    /// player gives `None` and changes nothing.
    pub fn move_player(&mut self, id: u64, grounded: bool, dt: i64) -> (r: Option<Vec3>)
        requires
            old(self).wf(),
            valid_step(dt),
        ensures
            final(self).wf(),
            final(self).players@.len() == old(self).players@.len(),
            forall|i: int|
                0 <= i < old(self).players@.len() && old(self).players@[i].id != id ==> final(self).players@[i] == old(self).players@[i],
            forall|i: int|
                0 <= i < old(self).players@.len() && old(self).players@[i].id == id ==> {
                    let p = old(self).players@[i];
                    let q = final(self).players@[i];
                    let run = run_inputs(p.controller, p.input_queue@, grounded, dt as int);
                    &&& q.id == p.id && q.entity == p.entity && q.translation == p.translation
                    &&& q.last_tick == p.last_tick
                    &&& q.controller == run.0
                    &&& r == run.1
                    &&& q.input_queue@ == p.input_queue@.skip(run.2 as int)
                    &&& not_before(q.controller.last_applied_serial, p.controller.last_applied_serial)
                },
            (forall|i: int| 0 <= i < old(self).players@.len() ==> old(self).players@[i].id != id)
                ==> r is None,
            final(self).lobby.players@ == old(self).lobby.players@,
            final(self).projectiles@ == old(self).projectiles@,
            final(self).cubes@ == old(self).cubes@,
            final(self).tick == old(self).tick,
            final(self).next_entity == old(self).next_entity,
    {
        let i = match self.find_player(id) {
            None => {
                return None;
            },
            Some(i) => i,
        };
        let mut p = self.players.remove(i);
        assert(player_ok(p));
        let r = fps_controller_move(&mut p.controller, &mut p.input_queue, grounded, dt);
        self.players.insert(i, p);
        proof {
            assert forall|j: int| 0 <= j < old(self).players@.len() && j != i implies self.players@[j]
                == old(self).players@[j] by {}
            Self::lemma_player_replaced(old(self), self, i as int);
            assert forall|j: int|
                0 <= j < old(self).players@.len() && old(self).players@[j].id == id implies j
                == i by {}
        }
        r
    }

    /// Records where the physics engine has moved player `id`. A position
    /// out of the world bounds, or an unknown player, changes nothing;
    /// returns whether it was recorded.
    pub fn set_player_translation(&mut self, id: u64, translation: Vec3) -> (r: bool)
        requires
            old(self).wf(),
        ensures
            final(self).wf(),
            final(self).players@.len() == old(self).players@.len(),
            forall|i: int|
                0 <= i < old(self).players@.len() ==> {
                    let p = #[trigger] old(self).players@[i];
                    let q = final(self).players@[i];
                    if p.id == id && translation.is_position() {
                        &&& q.id == p.id && q.entity == p.entity && q.translation == translation
                        &&& q.controller == p.controller && q.last_tick == p.last_tick
                        &&& q.input_queue@ == p.input_queue@
                    } else {
                        q == p
                    }
                },
            r == (translation.is_position() && exists|i: int|
                0 <= i < old(self).players@.len() && old(self).players@[i].id == id),
            final(self).lobby.players@ == old(self).lobby.players@,
            final(self).projectiles@ == old(self).projectiles@,
            final(self).cubes@ == old(self).cubes@,
            final(self).tick == old(self).tick,
            final(self).next_entity == old(self).next_entity,
    {
        if !crate::client::within_bounds(&translation) {
            return false;
        }
        let i = match self.find_player(id) {
            None => {
                return false;
            },
            Some(i) => i,
        };
        let mut p = self.players.remove(i);
        p.translation = translation;
        self.players.insert(i, p);
        proof {
            assert forall|j: int| 0 <= j < old(self).players@.len() && j != i implies self.players@[j]
                == old(self).players@[j] by {}
            Self::lemma_player_replaced(old(self), self, i as int);
            assert forall|j: int|
                0 <= j < old(self).players@.len() && old(self).players@[j].id == id implies j
                == i by {}
        }
        true
    }
}

pub open spec fn player_translations(ps: Seq<ServerPlayer>) -> Seq<Vec3> {
    ps.map_values(|p: ServerPlayer| p.translation)
}

pub open spec fn player_velocities(ps: Seq<ServerPlayer>) -> Seq<Vec3> {
    ps.map_values(|p: ServerPlayer| p.controller.velocity)
}

pub open spec fn object_translations(os: Seq<ServerObject>) -> Seq<Vec3> {
    os.map_values(|o: ServerObject| o.translation)
}

pub open spec fn object_velocities(os: Seq<ServerObject>) -> Seq<Vec3> {
    os.map_values(|o: ServerObject| o.velocity)
}

pub open spec fn object_rotations(os: Seq<ServerObject>) -> Seq<Quat> {
    os.map_values(|o: ServerObject| o.rotation)
}

/// Each player's id with the serial of its last applied input: who gets a
/// snapshot, and what it acknowledges to them.
pub open spec fn recipients(ps: Seq<ServerPlayer>) -> Seq<(u64, Option<u32>)> {
    ps.map_values(|p: ServerPlayer| (p.id, p.controller.last_applied_serial))
}

/// Speed of a fireball, in millimetres per second.
pub const FIREBALL_SPEED: i64 = 10_000;

/// How long a fireball lives, in milliseconds.
pub const FIREBALL_LIFETIME_MS: u64 = 1_500;

/// How far in front of its caster a fireball appears, in millimetres.
pub const FIREBALL_OFFSET: i64 = 700;

/// Height at which a fireball travels, in millimetres.
pub const FIREBALL_HEIGHT: i64 = 1_000;

/// Where a fireball cast from `from` toward `at` starts, and its velocity:
/// it leaves horizontally along the unit direction from caster to target.
pub open spec fn fireball(from: Vec3, at: Vec3) -> (Vec3, Vec3) {
    let d = crate::controller::unit_direction(at.x - from.x, at.z - from.z);
    (
        Vec3 {
            x: clamp(from.x + div_toward_zero(d.0 * FIREBALL_OFFSET, UNIT as int), POSITION_LIMIT as int) as i64,
            y: FIREBALL_HEIGHT,
            z: clamp(from.z + div_toward_zero(d.1 * FIREBALL_OFFSET, UNIT as int), POSITION_LIMIT as int) as i64,
        },
        Vec3 {
            x: div_toward_zero(d.0 * FIREBALL_SPEED, UNIT as int) as i64,
            y: 0,
            z: div_toward_zero(d.1 * FIREBALL_SPEED, UNIT as int) as i64,
        },
    )
}

/// Whether a cast from `from` toward `at` can be aimed: the target is in the
/// world and within `SPEED_LIMIT` millimetres along each horizontal axis.
pub open spec fn aimable(from: Vec3, at: Vec3) -> bool {
    at.is_position() && within(at.x - from.x, SPEED_LIMIT as int) && within(
        at.z - from.z,
        SPEED_LIMIT as int,
    )
}

impl Server {
    /// Builds the snapshot for the current tick and advances the tick. The
    /// players and projectiles go in the plain arrays (players first), the
    /// boxes in the oriented ones; a player's velocity is its controller's.
    /// `last_player_input` is left empty: each recipient's copy gets the
    /// serial listed for it. `None` once the tick counter is exhausted.
    pub fn network_sync(&mut self) -> (r: Option<(NetworkFrame, Vec<(u64, Option<u32>)>)>)
        requires
            old(self).wf(),
        ensures
            final(self).wf(),
            final(self).players@ == old(self).players@,
            final(self).projectiles@ == old(self).projectiles@,
            final(self).cubes@ == old(self).cubes@,
            final(self).lobby.players@ == old(self).lobby.players@,
            final(self).next_entity == old(self).next_entity,
            r is Some == (old(self).tick < u32::MAX),
            r is None ==> final(self).tick == old(self).tick,
            r matches Some((frame, to)) ==> {
                let ps = old(self).players@;
                let pr = old(self).projectiles@;
                let cs = old(self).cubes@;
                &&& final(self).tick == old(self).tick + 1
                &&& frame.wf()
                &&& frame.tick == old(self).tick
                &&& frame.last_player_input.is_none()
                &&& frame.entities.entities@ == player_entities(ps) + object_entities(pr)
                &&& frame.entities.translations@ == player_translations(ps) + object_translations(
                    pr,
                )
                &&& frame.entities.velocities@ == player_velocities(ps) + object_velocities(pr)
                &&& frame.with_rotation.entities@ == object_entities(cs)
                &&& frame.with_rotation.translations@ == object_translations(cs)
                &&& frame.with_rotation.velocities@ == object_velocities(cs)
                &&& frame.with_rotation.rotations@ == object_rotations(cs)
                &&& frame.mentioned() == old(self).snapshot()
                &&& to@ == recipients(ps)
            },
    {
        if self.tick == u32::MAX {
            return None;
        }
        let mut frame = NetworkFrame::new(self.tick, None);
        let mut to: Vec<(u64, Option<u32>)> = Vec::new();
        let ps = &self.players;
        let mut i: usize = 0;
        while i < ps.len()
            invariant
                0 <= i <= ps@.len(),
                frame.wf(),
                frame.tick == old(self).tick,
                frame.last_player_input.is_none(),
                frame.entities.entities@ == player_entities(ps@.take(i as int)),
                frame.entities.translations@ == player_translations(ps@.take(i as int)),
                frame.entities.velocities@ == player_velocities(ps@.take(i as int)),
                frame.with_rotation.entities@.len() == 0,
                to@ == recipients(ps@.take(i as int)),
            decreases ps@.len() - i,
        {
            let p = &ps[i];
            frame.entities.push(p.entity, p.translation, p.controller.velocity);
            to.push((p.id, p.controller.last_applied_serial));
            proof {
                let t1 = ps@.take(i + 1);
                let t0 = ps@.take(i as int);
                assert(t1 == t0.push(ps@[i as int]));
                assert(player_entities(t1) =~= player_entities(t0).push(p.entity));
                assert(player_translations(t1) =~= player_translations(t0).push(p.translation));
                assert(player_velocities(t1) =~= player_velocities(t0).push(p.controller.velocity));
                assert(recipients(t1) =~= recipients(t0).push((p.id, p.controller.last_applied_serial)));
            }
            i = i + 1;
        }
        assert(ps@.take(i as int) == ps@);
        let pr = &self.projectiles;
        let ghost base_e = frame.entities.entities@;
        let ghost base_t = frame.entities.translations@;
        let ghost base_v = frame.entities.velocities@;
        let mut j: usize = 0;
        while j < pr.len()
            invariant
                0 <= j <= pr@.len(),
                frame.wf(),
                frame.tick == old(self).tick,
                frame.last_player_input.is_none(),
                frame.entities.entities@ == base_e + object_entities(pr@.take(j as int)),
                frame.entities.translations@ == base_t + object_translations(pr@.take(j as int)),
                frame.entities.velocities@ == base_v + object_velocities(pr@.take(j as int)),
                frame.with_rotation.entities@.len() == 0,
            decreases pr@.len() - j,
        {
            let o = pr[j];
            frame.entities.push(o.entity, o.translation, o.velocity);
            proof {
                let t1 = pr@.take(j + 1);
                let t0 = pr@.take(j as int);
                assert(t1 == t0.push(pr@[j as int]));
                assert(object_entities(t1) =~= object_entities(t0).push(o.entity));
                assert(object_translations(t1) =~= object_translations(t0).push(o.translation));
                assert(object_velocities(t1) =~= object_velocities(t0).push(o.velocity));
                assert(base_e + object_entities(t1) =~= (base_e + object_entities(t0)).push(o.entity));
                assert(base_t + object_translations(t1) =~= (base_t + object_translations(t0)).push(o.translation));
                assert(base_v + object_velocities(t1) =~= (base_v + object_velocities(t0)).push(o.velocity));
            }
            j = j + 1;
        }
        assert(pr@.take(j as int) == pr@);
        let cs = &self.cubes;
        let mut k: usize = 0;
        while k < cs.len()
            invariant
                0 <= k <= cs@.len(),
                frame.wf(),
                frame.tick == old(self).tick,
                frame.last_player_input.is_none(),
                frame.entities.entities@ == base_e + object_entities(pr@),
                frame.entities.translations@ == base_t + object_translations(pr@),
                frame.entities.velocities@ == base_v + object_velocities(pr@),
                frame.with_rotation.entities@ == object_entities(cs@.take(k as int)),
                frame.with_rotation.translations@ == object_translations(cs@.take(k as int)),
                frame.with_rotation.velocities@ == object_velocities(cs@.take(k as int)),
                frame.with_rotation.rotations@ == object_rotations(cs@.take(k as int)),
            decreases cs@.len() - k,
        {
            let o = cs[k];
            frame.with_rotation.push(o.entity, o.translation, o.velocity, o.rotation);
            proof {
                let t1 = cs@.take(k + 1);
                let t0 = cs@.take(k as int);
                assert(t1 == t0.push(cs@[k as int]));
                assert(object_entities(t1) =~= object_entities(t0).push(o.entity));
                assert(object_translations(t1) =~= object_translations(t0).push(o.translation));
                assert(object_velocities(t1) =~= object_velocities(t0).push(o.velocity));
                assert(object_rotations(t1) =~= object_rotations(t0).push(o.rotation));
            }
            k = k + 1;
        }
        assert(cs@.take(k as int) == cs@);
        self.tick = self.tick + 1;
        Some((frame, to))
    }

    /// Adds a simulated object with the next free entity id: a projectile,
    /// or a box when `cube` is set. `None` when entity ids are exhausted.
    fn spawn_object(&mut self, object: ServerObject, cube: bool) -> (r: Option<u64>)
        requires
            old(self).wf(),
            object.translation.is_position(),
            object.velocity.is_speed(),
        ensures
            final(self).wf(),
            final(self).players@ == old(self).players@,
            final(self).lobby.players@ == old(self).lobby.players@,
            final(self).tick == old(self).tick,
            r is Some == (old(self).next_entity < u64::MAX),
            r is None ==> final(self).projectiles@ == old(self).projectiles@ && final(self).cubes@
                == old(self).cubes@ && final(self).next_entity == old(self).next_entity,
            r matches Some(e) ==> {
                let o = ServerObject { entity: e, ..object };
                &&& e == old(self).next_entity
                &&& final(self).next_entity == e + 1
                &&& cube ==> final(self).cubes@ == old(self).cubes@.push(o)
                    && final(self).projectiles@ == old(self).projectiles@
                &&& !cube ==> final(self).projectiles@ == old(self).projectiles@.push(o)
                    && final(self).cubes@ == old(self).cubes@
            },
    {
        if self.next_entity == u64::MAX {
            return None;
        }
        let e = self.next_entity;
        let o = ServerObject { entity: e, ..object };
        let ghost before = self.snapshot();
        let ghost np: int = (self.players@.len() + self.projectiles@.len()) as int;
        let ghost nc: int = self.cubes@.len() as int;
        if cube {
            self.cubes.push(o);
        } else {
            self.projectiles.push(o);
        }
        self.next_entity = e + 1;
        proof {
            let snap = self.snapshot();
            let pos: int = if cube {
                np + nc
            } else {
                np
            };
            if cube {
                assert(object_entities(self.cubes@) =~= object_entities(old(self).cubes@).push(e));
            } else {
                assert(object_entities(self.projectiles@) =~= object_entities(
                    old(self).projectiles@,
                ).push(e));
            }
            assert(snap.len() == before.len() + 1);
            assert forall|k: int| 0 <= k < snap.len() implies (if k < pos {
                snap[k] == before[k]
            } else if k == pos {
                snap[k] == e
            } else {
                snap[k] == before[k - 1]
            }) by {}
            assert forall|a: int, b: int|
                0 <= a < snap.len() && 0 <= b < snap.len() && a != b implies snap[a] != snap[b] by {
                if a != pos && b != pos {
                    let a2 = if a < pos { a } else { a - 1 };
                    let b2 = if b < pos { b } else { b - 1 };
                    assert(before[a2] != before[b2]);
                } else if a == pos {
                    let b2 = if b < pos { b } else { b - 1 };
                    assert(before[b2] < e);
                } else {
                    let a2 = if a < pos { a } else { a - 1 };
                    assert(before[a2] < e);
                }
            }
            assert forall|k: int| 0 <= k < snap.len() implies #[trigger] snap[k] < self.next_entity by {
                if k != pos {
                    let k2 = if k < pos { k } else { k - 1 };
                    assert(before[k2] < e);
                }
            }
            assert forall|a: int| 0 <= a < self.projectiles@.len() implies (#[trigger] self.projectiles@[a]).translation.is_position()
                && self.projectiles@[a].velocity.is_speed() by {
                if a < old(self).projectiles@.len() {
                    assert(self.projectiles@[a] == old(self).projectiles@[a]);
                }
            }
            assert forall|a: int| 0 <= a < self.cubes@.len() implies (#[trigger] self.cubes@[a]).translation.is_position()
                && self.cubes@[a].velocity.is_speed() by {
                if a < old(self).cubes@.len() {
                    assert(self.cubes@[a] == old(self).cubes@[a]);
                }
            }
        }
        Some(e)
    }

    /// A basic attack of player `id` toward `cast_at`: a fireball leaves the
    /// caster horizontally toward the target (see `fireball`) and its spawn
    /// message for everyone is returned. An unknown player, a target that
    /// cannot be aimed at, or exhausted entity ids give `None` and change
    /// nothing.
    pub fn receive_command(&mut self, id: u64, command: PlayerCommand) -> (r: Option<ServerMessages>)
        requires
            old(self).wf(),
        ensures
            final(self).wf(),
            final(self).players@ == old(self).players@,
            final(self).cubes@ == old(self).cubes@,
            final(self).lobby.players@ == old(self).lobby.players@,
            final(self).tick == old(self).tick,
            match command {
                PlayerCommand::BasicAttack { cast_at } => {
                    if exists|i: int|
                        0 <= i < old(self).players@.len() && old(self).players@[i].id == id
                            && aimable(old(self).players@[i].translation, cast_at)
                            && old(self).next_entity < u64::MAX {
                        let i = choose|i: int|
                            0 <= i < old(self).players@.len() && old(self).players@[i].id == id;
                        let f = fireball(old(self).players@[i].translation, cast_at);
                        let e = old(self).next_entity;
                        &&& r == Some(
                            ServerMessages::SpawnProjectile {
                                entity: e,
                                translation: f.0,
                                object_type: ObjectType::Projectile,
                            },
                        )
                        &&& final(self).projectiles@ == old(self).projectiles@.push(
                            ServerObject {
                                entity: e,
                                translation: f.0,
                                velocity: f.1,
                                rotation: Quat { x: 0, y: 0, z: 0, w: UNIT },
                                lifetime_ms: FIREBALL_LIFETIME_MS,
                            },
                        )
                        &&& final(self).next_entity == e + 1
                    } else {
                        &&& r is None
                        &&& final(self).projectiles@ == old(self).projectiles@
                        &&& final(self).next_entity == old(self).next_entity
                    }
                },
            },
    {
        match command {
            PlayerCommand::BasicAttack { cast_at } => {
                let i = match self.find_player(id) {
                    None => {
                        return None;
                    },
                    Some(i) => i,
                };
                let from = self.players[i].translation;
                assert(player_ok(self.players@[i as int]));
                if !crate::client::within_bounds(&cast_at) {
                    return None;
                }
                let dx = cast_at.x - from.x;
                let dz = cast_at.z - from.z;
                if !(-SPEED_LIMIT <= dx && dx <= SPEED_LIMIT && -SPEED_LIMIT <= dz && dz <= SPEED_LIMIT) {
                    return None;
                }
                if self.next_entity == u64::MAX {
                    return None;
                }
                let (ux, uz, _len) = normalize(dx, dz);
                proof {
                    lemma_div_toward_zero_shrinks(ux * FIREBALL_OFFSET, 1000);
                    lemma_div_toward_zero_shrinks(uz * FIREBALL_OFFSET, 1000);
                    lemma_div_toward_zero_shrinks(ux * FIREBALL_SPEED, 1000);
                    lemma_div_toward_zero_shrinks(uz * FIREBALL_SPEED, 1000);
                }
                assert(within(ux * FIREBALL_SPEED, 10_000_000) && within(uz * FIREBALL_SPEED, 10_000_000)
                    && within(ux * FIREBALL_OFFSET, 700_000) && within(uz * FIREBALL_OFFSET, 700_000))
                    by (nonlinear_arith)
                    requires
                        within(ux as int, 1000),
                        within(uz as int, 1000),
                ;
                let translation = Vec3 {
                    x: clamp_position(from.x + mul_div(ux, FIREBALL_OFFSET, UNIT)),
                    y: FIREBALL_HEIGHT,
                    z: clamp_position(from.z + mul_div(uz, FIREBALL_OFFSET, UNIT)),
                };
                let velocity = Vec3 {
                    x: mul_div(ux, FIREBALL_SPEED, UNIT),
                    y: 0,
                    z: mul_div(uz, FIREBALL_SPEED, UNIT),
                };
                let object = ServerObject {
                    entity: 0,
                    translation,
                    velocity,
                    rotation: Quat::identity(),
                    lifetime_ms: FIREBALL_LIFETIME_MS,
                };
                match self.spawn_object(object, false) {
                    None => None,
                    Some(e) => Some(
                        ServerMessages::SpawnProjectile {
                            entity: e,
                            translation,
                            object_type: ObjectType::Projectile,
                        },
                    ),
                }
            },
        }
    }

    /// Adds a box at rest at `translation` and returns its spawn message for
    /// everyone; `None`, with nothing changed, for a place out of the world
    /// or exhausted entity ids.
    pub fn add_cube(&mut self, translation: Vec3) -> (r: Option<ServerMessages>)
        requires
            old(self).wf(),
        ensures
            final(self).wf(),
            final(self).players@ == old(self).players@,
            final(self).projectiles@ == old(self).projectiles@,
            final(self).lobby.players@ == old(self).lobby.players@,
            final(self).tick == old(self).tick,
            r is Some == (translation.is_position() && old(self).next_entity < u64::MAX),
            r is None ==> final(self).cubes@ == old(self).cubes@ && final(self).next_entity == old(self).next_entity,
            r is Some ==> {
                let e = old(self).next_entity;
                &&& r == Some(
                    ServerMessages::SpawnProjectile { entity: e, translation, object_type: ObjectType::Box },
                )
                &&& final(self).cubes@ == old(self).cubes@.push(
                    ServerObject {
                        entity: e,
                        translation,
                        velocity: Vec3 { x: 0, y: 0, z: 0 },
                        rotation: Quat { x: 0, y: 0, z: 0, w: UNIT },
                        lifetime_ms: 0,
                    },
                )
                &&& final(self).next_entity == e + 1
            },
    {
        if !crate::client::within_bounds(&translation) {
            return None;
        }
        let object = ServerObject {
            entity: 0,
            translation,
            velocity: Vec3::zero(),
            rotation: Quat::identity(),
            lifetime_ms: 0,
        };
        match self.spawn_object(object, true) {
            None => None,
            Some(e) => Some(
                ServerMessages::SpawnProjectile { entity: e, translation, object_type: ObjectType::Box },
            ),
        }
    }
}

fn clamp_position(v: i64) -> (r: i64)
    ensures
        r as int == clamp(v as int, POSITION_LIMIT as int),
{
    if v > POSITION_LIMIT {
        POSITION_LIMIT
    } else if v < -POSITION_LIMIT {
        -POSITION_LIMIT
    } else {
        v
    }
}

/// Removing one entry of a list of distinct issued ids leaves a list of
/// distinct issued ids.
proof fn lemma_distinct_remove(before: Seq<u64>, pos: int, bound: u64)
    requires
        distinct(before),
        0 <= pos < before.len(),
        forall|k: int| 0 <= k < before.len() ==> #[trigger] before[k] < bound,
    ensures
        distinct(before.remove(pos)),
        forall|k: int| 0 <= k < before.remove(pos).len() ==> #[trigger] before.remove(pos)[k] < bound,
{
    let after = before.remove(pos);
    assert forall|a: int, b: int|
        0 <= a < after.len() && 0 <= b < after.len() && a != b implies after[a] != after[b] by {
        let a2 = if a < pos { a } else { a + 1 };
        let b2 = if b < pos { b } else { b + 1 };
        assert(before[a2] != before[b2]);
    }
    assert forall|k: int| 0 <= k < after.len() implies #[trigger] after[k] < bound by {
        let k2 = if k < pos { k } else { k + 1 };
        assert(after[k] == before[k2]);
    }
}

/// Entities of the objects whose lifetime runs out within `dt`
/// milliseconds, in order.
pub open spec fn expired_entities(os: Seq<ServerObject>, dt: u64) -> Seq<u64>
    decreases os.len(),
{
    if os.len() == 0 {
        Seq::empty()
    } else {
        let init = expired_entities(os.drop_last(), dt);
        if os.last().lifetime_ms <= dt {
            init.push(os.last().entity)
        } else {
            init
        }
    }
}

/// An object `dt` milliseconds older.
pub open spec fn aged(o: ServerObject, dt: u64) -> ServerObject {
    ServerObject {
        lifetime_ms: if o.lifetime_ms > dt {
            (o.lifetime_ms - dt) as u64
        } else {
            0
        },
        ..o
    }
}

/// An object with a new reported state.
pub open spec fn moved_object(o: ServerObject, t: Vec3, v: Vec3, rot: Quat) -> ServerObject {
    ServerObject { translation: t, velocity: v, rotation: rot, ..o }
}

impl Server {
    fn find_object(os: &Vec<ServerObject>, entity: u64) -> (r: Option<usize>)
        ensures
            r matches Some(i) ==> i < os@.len() && os@[i as int].entity == entity,
            r is None ==> forall|i: int| 0 <= i < os@.len() ==> os@[i].entity != entity,
    {
        let mut i: usize = 0;
        while i < os.len()
            invariant
                0 <= i <= os@.len(),
                forall|k: int| 0 <= k < i ==> os@[k].entity != entity,
            decreases os@.len() - i,
        {
            if os[i].entity == entity {
                return Some(i);
            }
            i = i + 1;
        }
        None
    }

    /// Removes the projectile or box with entity `entity` (it expired, or it
    /// hit something) and returns its despawn message for everyone; an
    /// unknown entity gives `None` and changes nothing.
    pub fn despawn_object(&mut self, entity: u64) -> (r: Option<ServerMessages>)
        requires
            old(self).wf(),
        ensures
            final(self).wf(),
            final(self).players@ == old(self).players@,
            final(self).lobby.players@ == old(self).lobby.players@,
            final(self).tick == old(self).tick,
            final(self).next_entity == old(self).next_entity,
            forall|i: int|
                0 <= i < old(self).projectiles@.len() && old(self).projectiles@[i].entity == entity
                    ==> final(self).projectiles@ == old(self).projectiles@.remove(i) && final(self).cubes@
                    == old(self).cubes@,
            forall|i: int|
                0 <= i < old(self).cubes@.len() && old(self).cubes@[i].entity == entity
                    ==> final(self).cubes@ == old(self).cubes@.remove(i) && final(self).projectiles@
                    == old(self).projectiles@,
            r is Some == ((exists|i: int|
                0 <= i < old(self).projectiles@.len() && old(self).projectiles@[i].entity == entity)
                || (exists|i: int| 0 <= i < old(self).cubes@.len() && old(self).cubes@[i].entity == entity)),
            r is Some ==> r == Some(ServerMessages::DespawnProjectile { entity }) && !final(self).snapshot().contains(entity),
            r is None ==> final(self).projectiles@ == old(self).projectiles@ && final(self).cubes@
                == old(self).cubes@,
    {
        let ghost before = self.snapshot();
        let ghost np = self.players@.len() as int;
        let ghost nq = self.projectiles@.len() as int;
        match Self::find_object(&self.projectiles, entity) {
            Some(i) => {
                self.projectiles.remove(i);
                proof {
                    assert(object_entities(self.projectiles@) =~= object_entities(
                        old(self).projectiles@,
                    ).remove(i as int));
                    assert(self.snapshot() =~= before.remove(np + i));
                    lemma_distinct_remove(before, np + i, self.next_entity);
                    assert(before[np + i] == entity);
                    Self::lemma_objects_after_remove(old(self).projectiles@, i as int);
                    assert forall|j: int|
                        0 <= j < old(self).projectiles@.len() && old(self).projectiles@[j].entity
                            == entity implies j == i by {
                        assert(before[np + j] == entity);
                    }
                    assert(!self.snapshot().contains(entity)) by {
                        if self.snapshot().contains(entity) {
                            let k = choose|k: int| 0 <= k < self.snapshot().len() && self.snapshot()[k] == entity;
                            let k2 = if k < np + i { k } else { k + 1 };
                            assert(before[k2] == entity);
                        }
                    }
                    assert forall|j: int|
                        0 <= j < old(self).cubes@.len() && old(self).cubes@[j].entity == entity implies false by {
                        assert(before[np + nq + j] == entity);
                    }
                }
                return Some(ServerMessages::DespawnProjectile { entity });
            },
            None => {},
        }
        match Self::find_object(&self.cubes, entity) {
            Some(i) => {
                self.cubes.remove(i);
                proof {
                    assert(object_entities(self.cubes@) =~= object_entities(old(self).cubes@).remove(
                        i as int,
                    ));
                    assert(self.snapshot() =~= before.remove(np + nq + i));
                    lemma_distinct_remove(before, np + nq + i, self.next_entity);
                    assert(before[np + nq + i] == entity);
                    Self::lemma_objects_after_remove(old(self).cubes@, i as int);
                    assert forall|j: int|
                        0 <= j < old(self).cubes@.len() && old(self).cubes@[j].entity == entity implies j
                        == i by {
                        assert(before[np + nq + j] == entity);
                    }
                    assert(!self.snapshot().contains(entity)) by {
                        if self.snapshot().contains(entity) {
                            let k = choose|k: int| 0 <= k < self.snapshot().len() && self.snapshot()[k] == entity;
                            let k2 = if k < np + nq + i { k } else { k + 1 };
                            assert(before[k2] == entity);
                        }
                    }
                }
                return Some(ServerMessages::DespawnProjectile { entity });
            },
            None => {},
        }
        None
    }

    proof fn lemma_objects_after_remove(os: Seq<ServerObject>, i: int)
        requires
            Self::objects_wf(os),
            0 <= i < os.len(),
        ensures
            Self::objects_wf(os.remove(i)),
    {
        assert forall|a: int| 0 <= a < os.remove(i).len() implies (#[trigger] os.remove(i)[a]).translation.is_position()
            && os.remove(i)[a].velocity.is_speed() by {
            let a2 = if a < i { a } else { a + 1 };
            assert(os.remove(i)[a] == os[a2]);
        }
    }

    /// Ages every projectile by `dt` milliseconds and returns, in order, the
    /// entities of those whose lifetime ran out; `despawn_object` then
    /// removes each.
    pub fn age_projectiles(&mut self, dt: u64) -> (r: Vec<u64>)
        requires
            old(self).wf(),
        ensures
            final(self).wf(),
            final(self).players@ == old(self).players@,
            final(self).cubes@ == old(self).cubes@,
            final(self).lobby.players@ == old(self).lobby.players@,
            final(self).tick == old(self).tick,
            final(self).next_entity == old(self).next_entity,
            final(self).projectiles@.len() == old(self).projectiles@.len(),
            forall|i: int|
                0 <= i < old(self).projectiles@.len() ==> final(self).projectiles@[i] == aged(
                    #[trigger] old(self).projectiles@[i],
                    dt,
                ),
            r@ == expired_entities(old(self).projectiles@, dt),
    {
        let mut expired: Vec<u64> = Vec::new();
        let n = self.projectiles.len();
        let mut i: usize = 0;
        while i < n
            invariant
                0 <= i <= n,
                n == self.projectiles@.len(),
                n == old(self).projectiles@.len(),
                forall|k: int| 0 <= k < i ==> self.projectiles@[k] == aged(#[trigger] old(self).projectiles@[k], dt),
                forall|k: int| i <= k < n ==> self.projectiles@[k] == #[trigger] old(self).projectiles@[k],
                expired@ == expired_entities(old(self).projectiles@.take(i as int), dt),
                self.players@ == old(self).players@,
                self.cubes@ == old(self).cubes@,
                self.lobby.players@ == old(self).lobby.players@,
                self.tick == old(self).tick,
                self.next_entity == old(self).next_entity,
            decreases n - i,
        {
            let o = self.projectiles[i];
            if o.lifetime_ms <= dt {
                expired.push(o.entity);
            }
            let left = if o.lifetime_ms > dt {
                o.lifetime_ms - dt
            } else {
                0
            };
            self.projectiles.set(i, ServerObject { lifetime_ms: left, ..o });
            proof {
                let t1 = old(self).projectiles@.take(i + 1);
                assert(t1.drop_last() == old(self).projectiles@.take(i as int));
                assert(t1.last() == o);
            }
            i = i + 1;
        }
        assert(old(self).projectiles@.take(n as int) == old(self).projectiles@);
        proof {
            assert(object_entities(self.projectiles@) =~= object_entities(old(self).projectiles@));
            assert(self.snapshot() =~= old(self).snapshot());
            assert forall|a: int| 0 <= a < self.projectiles@.len() implies (#[trigger] self.projectiles@[a]).translation.is_position()
                && self.projectiles@[a].velocity.is_speed() by {
                assert(self.projectiles@[a] == aged(old(self).projectiles@[a], dt));
            }
        }
        expired
    }

    /// Records the state that the physics engine reports for the projectile
    /// or box with entity `entity`. A report out of the world or speed
    /// bounds, or an unknown entity, changes nothing; returns whether it
    /// was recorded.
    pub fn set_object_state(&mut self, entity: u64, translation: Vec3, velocity: Vec3, rotation: Quat) -> (r: bool)
        requires
            old(self).wf(),
        ensures
            final(self).wf(),
            final(self).players@ == old(self).players@,
            final(self).lobby.players@ == old(self).lobby.players@,
            final(self).tick == old(self).tick,
            final(self).next_entity == old(self).next_entity,
            !r ==> final(self).projectiles@ == old(self).projectiles@ && final(self).cubes@ == old(self).cubes@,
            r == (translation.is_position() && velocity.is_speed() && ((exists|i: int|
                0 <= i < old(self).projectiles@.len() && old(self).projectiles@[i].entity == entity)
                || (exists|i: int|
                0 <= i < old(self).cubes@.len() && old(self).cubes@[i].entity == entity))),
            forall|i: int|
                0 <= i < old(self).projectiles@.len() && old(self).projectiles@[i].entity == entity
                    && translation.is_position() && velocity.is_speed() ==> r && final(self).projectiles@
                    == old(self).projectiles@.update(i, moved_object(old(self).projectiles@[i], translation, velocity, rotation))
                    && final(self).cubes@ == old(self).cubes@,
            forall|i: int|
                0 <= i < old(self).cubes@.len() && old(self).cubes@[i].entity == entity
                    && translation.is_position() && velocity.is_speed() ==> r && final(self).cubes@
                    == old(self).cubes@.update(i, moved_object(old(self).cubes@[i], translation, velocity, rotation))
                    && final(self).projectiles@ == old(self).projectiles@,
    {
        if !(crate::client::within_bounds(&translation) && crate::client::within_speed(&velocity)) {
            return false;
        }
        let ghost before = self.snapshot();
        let ghost np = self.players@.len() as int;
        let ghost nq = self.projectiles@.len() as int;
        match Self::find_object(&self.projectiles, entity) {
            Some(i) => {
                let o = self.projectiles[i];
                self.projectiles.set(i, ServerObject { translation, velocity, rotation, ..o });
                proof {
                    assert(object_entities(self.projectiles@) =~= object_entities(old(self).projectiles@));
                    assert forall|a: int| 0 <= a < self.projectiles@.len() implies (#[trigger] self.projectiles@[a]).translation.is_position()
                        && self.projectiles@[a].velocity.is_speed() by {
                        if a != i {
                            assert(self.projectiles@[a] == old(self).projectiles@[a]);
                        }
                    }
                    assert forall|j: int|
                        0 <= j < old(self).projectiles@.len() && old(self).projectiles@[j].entity == entity implies j == i by {
                        assert(before[np + j] == entity);
                        assert(before[np + i] == entity);
                    }
                    assert forall|j: int|
                        0 <= j < old(self).cubes@.len() && old(self).cubes@[j].entity == entity implies false by {
                        assert(before[np + nq + j] == entity);
                        assert(before[np + i] == entity);
                    }
                }
                return true;
            },
            None => {},
        }
        match Self::find_object(&self.cubes, entity) {
            Some(i) => {
                let o = self.cubes[i];
                self.cubes.set(i, ServerObject { translation, velocity, rotation, ..o });
                proof {
                    assert(object_entities(self.cubes@) =~= object_entities(old(self).cubes@));
                    assert forall|a: int| 0 <= a < self.cubes@.len() implies (#[trigger] self.cubes@[a]).translation.is_position()
                        && self.cubes@[a].velocity.is_speed() by {
                        if a != i {
                            assert(self.cubes@[a] == old(self).cubes@[a]);
                        }
                    }
                    assert forall|j: int|
                        0 <= j < old(self).cubes@.len() && old(self).cubes@[j].entity == entity implies j == i by {
                        assert(before[np + nq + j] == entity);
                        assert(before[np + nq + i] == entity);
                    }
                }
                true
            },
            None => false,
        }
    }
}

} // verus!
