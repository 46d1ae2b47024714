use renet_sync::client::{Client, ClientAction, EntityRole};
use renet_sync::datagram::{
    decode_client_datagram, decode_server_datagram, encode_client_datagram, encode_server_datagram,
};
use renet_sync::controller::{fps_controller_move, FpsController, MoveMode};
use renet_sync::extrapolate::VelocityExtrapolate;
use renet_sync::frame::{NetworkFrame, Quat};
use renet_sync::input::{
    fps_controller_input, get_axis, input_is_valid, FpsControllerConfig, FpsControllerInput,
    FpsControllerInputQueue, FpsControllerSerial, KeyState,
};
use renet_sync::log::{FpsControllerLog, FrameTime};
use renet_sync::reconcile::{replay, step_translation, STEP_DISTANCE};
use renet_sync::server::Server;
use renet_sync::vector::{isqrt, isqrt_ceil, Vec3};
use renet_sync::wire::{ClientChannel, ObjectType, PlayerCommand, ServerChannel, ServerMessages};

fn strafe(serial: u32) -> FpsControllerInput {
    let mut i = FpsControllerInput::idle(serial);
    i.move_x = 1;
    i
}

fn queue_of(serials: &[u32]) -> FpsControllerInputQueue {
    let mut q = FpsControllerInputQueue::new();
    for s in serials {
        q.push_back(FpsControllerInput::idle(*s));
    }
    q
}

fn serials(q: &FpsControllerInputQueue) -> Vec<u32> {
    q.queue.iter().map(|i| i.serial).collect()
}

fn frame_with(tick: u32, last_input: Option<u32>, entities: &[(u64, Vec3, Vec3)]) -> NetworkFrame {
    let mut f = NetworkFrame::new(tick, last_input);
    for (e, t, v) in entities {
        f.entities.push(*e, *t, *v);
    }
    f
}

#[test]
fn integrator_two_strafe_inputs_from_rest() {
    let mut c = FpsController::default();
    let mut q = FpsControllerInputQueue::new();
    q.push_back(strafe(1));
    q.push_back(strafe(2));
    let linvel = fps_controller_move(&mut c, &mut q, true, 16);
    assert!(c.velocity.x > 0);
    assert!(c.velocity.x <= c.walk_speed);
    assert_eq!(c.last_applied_serial, Some(2));
    assert_eq!(c.velocity, Vec3::new(2944, 0, 0));
    assert_eq!(linvel, Some(Vec3::new(2272, 0, 0)));
    assert_eq!(q.len(), 0);
    assert_eq!(c.ground_tick, 2);
}

#[test]
fn integrator_empty_queue_does_not_move() {
    let mut c = FpsController::default();
    let mut q = FpsControllerInputQueue::new();
    assert_eq!(fps_controller_move(&mut c, &mut q, true, 16), None);
    assert_eq!(c, FpsController::default());
}

#[test]
fn integrator_apply_single_consumes_one() {
    let mut c = FpsController::default();
    c.apply_single = true;
    let mut q = FpsControllerInputQueue::new();
    q.push_back(strafe(1));
    q.push_back(strafe(2));
    fps_controller_move(&mut c, &mut q, true, 16);
    assert_eq!(c.last_applied_serial, Some(1));
    assert_eq!(serials(&q), vec![2]);
}

#[test]
fn friction_slows_without_reversing() {
    let mut c = FpsController::default();
    c.velocity = Vec3::new(5000, 0, -3000);
    c.ground_tick = 5;
    let mut q = queue_of(&[1]);
    fps_controller_move(&mut c, &mut q, true, 16);
    assert_eq!(c.velocity, Vec3::new(4200, 0, -2520));
    assert!(c.velocity.x > 0 && c.velocity.x < 5000);
    assert!(c.velocity.z < 0 && c.velocity.z > -3000);
}

#[test]
fn friction_below_cutoff_stops() {
    let mut c = FpsController::default();
    c.velocity = Vec3::new(50, 700, 0);
    c.ground_tick = 1;
    let mut q = queue_of(&[1]);
    fps_controller_move(&mut c, &mut q, true, 16);
    assert_eq!(c.velocity, Vec3::new(0, 0, 0));
}

#[test]
fn friction_skipped_on_first_grounded_tick() {
    let mut c = FpsController::default();
    c.velocity = Vec3::new(5000, 0, 0);
    let mut q = queue_of(&[1]);
    fps_controller_move(&mut c, &mut q, true, 16);
    assert_eq!(c.velocity, Vec3::new(5000, 0, 0));
    assert_eq!(c.ground_tick, 1);
}

#[test]
fn acceleration_saturates_at_walk_speed() {
    let mut c = FpsController::default();
    let mut last = 0;
    for s in 1..=400u32 {
        let mut q = FpsControllerInputQueue::new();
        q.push_back(strafe(s));
        fps_controller_move(&mut c, &mut q, true, 16);
        assert!(c.velocity.x >= 0);
        assert!(c.velocity.x <= c.walk_speed);
        if s > 1 {
            assert!(c.velocity.x >= last || last - c.velocity.x < 10);
        }
        last = c.velocity.x;
    }
    assert!(c.velocity.x > 5000);
}

#[test]
fn sprint_uses_run_speed_in_the_air() {
    let mut c = FpsController::default();
    let mut q = FpsControllerInputQueue::new();
    let mut i = strafe(1);
    i.sprint = true;
    q.push_back(i);
    fps_controller_move(&mut c, &mut q, false, 16);
    // airborne: wish capped at the air cap (2000), air acceleration 20/s
    assert_eq!(c.velocity.x, 640);
    assert_eq!(c.velocity.y, -368);
    assert_eq!(c.ground_tick, 0);
}

#[test]
fn jump_sets_vertical_speed_before_gravity() {
    let mut c = FpsController::default();
    let mut q = FpsControllerInputQueue::new();
    let mut i = FpsControllerInput::idle(1);
    i.jump = true;
    q.push_back(i);
    let linvel = fps_controller_move(&mut c, &mut q, true, 16).unwrap();
    assert_eq!(c.velocity.y, 8500 - 368);
    assert_eq!(linvel.y, (8500 + 8500 - 368) / 2);
}

#[test]
fn fly_toggle_and_fly_speed() {
    let mut c = FpsController::default();
    let mut q = FpsControllerInputQueue::new();
    let mut i = strafe(1);
    i.fly = true;
    q.push_back(i);
    let linvel = fps_controller_move(&mut c, &mut q, true, 16).unwrap();
    assert_eq!(c.move_mode, MoveMode::Noclip);
    assert_eq!(c.velocity, Vec3::new(10_000, 0, 0));
    assert_eq!(linvel, Vec3::new(10_000, 0, 0));
    let mut q = queue_of(&[2]);
    fps_controller_move(&mut c, &mut q, true, 16);
    assert_eq!(c.velocity, Vec3::new(5_000, 0, 0));
}

#[test]
fn discard_removes_acknowledged_prefix() {
    let mut q = queue_of(&[10, 11, 12]);
    q.discard_acknowledged(11);
    assert_eq!(serials(&q), vec![12]);
    q.discard_acknowledged(11);
    assert_eq!(serials(&q), vec![12]);
    let mut q = queue_of(&[1, 2, 5, 9]);
    q.discard_acknowledged(0);
    assert_eq!(serials(&q), vec![1, 2, 5, 9]);
    q.discard_acknowledged(100);
    assert!(serials(&q).is_empty());
}

#[test]
fn newer_only_queue_rejects_stale_and_duplicate_serials() {
    let mut q = queue_of(&[3]);
    assert!(!q.push_newer(FpsControllerInput::idle(3)));
    assert!(!q.push_newer(FpsControllerInput::idle(2)));
    assert!(q.push_newer(FpsControllerInput::idle(4)));
    assert_eq!(q.last_serial(), Some(4));
    assert_eq!(q.pop_front().map(|i| i.serial), Some(3));
}

#[test]
fn plain_queue_keeps_arrival_order() {
    let mut q = queue_of(&[3]);
    q.push_back(FpsControllerInput::idle(3));
    q.push_back(FpsControllerInput::idle(2));
    assert_eq!(serials(&q), vec![3, 3, 2]);
}

#[test]
fn integrator_drops_stale_commands() {
    let mut c = FpsController::default();
    let mut q = FpsControllerInputQueue::new();
    q.push_back(strafe(2));
    q.push_back(strafe(2));
    q.push_back(strafe(1));
    let linvel = fps_controller_move(&mut c, &mut q, true, 16);
    assert_eq!(c.last_applied_serial, Some(2));
    assert_eq!(c.velocity, Vec3::new(1600, 0, 0));
    assert_eq!(linvel, Some(Vec3::new(800, 0, 0)));
    assert_eq!(q.len(), 0);
    let mut q = queue_of(&[1, 2]);
    let before = c;
    assert_eq!(fps_controller_move(&mut c, &mut q, true, 16), None);
    assert_eq!(c, before);
}

#[test]
fn apply_single_skips_stale_before_applying_one() {
    let mut c = FpsController::default();
    c.apply_single = true;
    c.last_applied_serial = Some(5);
    let mut q = FpsControllerInputQueue::new();
    q.push_back(strafe(4));
    q.push_back(strafe(6));
    q.push_back(strafe(7));
    fps_controller_move(&mut c, &mut q, true, 16);
    assert_eq!(c.last_applied_serial, Some(6));
    assert_eq!(serials(&q), vec![7]);
}

#[test]
fn serials_increase_by_one() {
    let mut s = FpsControllerSerial::new(u32::MAX - 1);
    assert_eq!(s.take(), Some(u32::MAX - 1));
    assert_eq!(s.take(), None);
}

#[test]
fn input_from_keys() {
    let config = FpsControllerConfig { enable_input: true };
    let keys = KeyState {
        forward: true,
        back: false,
        left: true,
        right: true,
        up: false,
        down: true,
        sprint: true,
        jump: false,
        fly_pressed: false,
        crouch: false,
    };
    let mut serial = FpsControllerSerial::new(7);
    let mut q = FpsControllerInputQueue::new();
    let i = fps_controller_input(&config, &keys, 0, -1000, Some(3), &mut serial, &mut q).unwrap();
    assert_eq!((i.serial, i.move_x, i.move_y, i.move_z), (7, 0, -1, 1));
    assert_eq!(i.most_recent_tick, Some(3));
    assert!(i.sprint);
    assert_eq!(serial.next, 8);
    assert_eq!(q.queue.back().copied(), Some(i));
    assert_eq!(serials(&q), vec![7]);
    let off = FpsControllerConfig { enable_input: false };
    assert!(fps_controller_input(&off, &keys, 0, -1000, None, &mut serial, &mut q).is_none());
    assert_eq!(serial.next, 8);
    assert_eq!(serials(&q), vec![7]);
    assert_eq!(get_axis(true, false), 1);
    assert_eq!(get_axis(false, true), -1);
}

#[test]
fn input_validation() {
    let mut i = FpsControllerInput::idle(1);
    assert!(input_is_valid(&i));
    i.heading_x = 1000;
    assert!(!input_is_valid(&i));
    i.heading_x = 600;
    i.heading_z = 800;
    assert!(input_is_valid(&i));
    i.move_y = 2;
    assert!(!input_is_valid(&i));
}

#[test]
fn extrapolation_continuity() {
    let e = VelocityExtrapolate { velocity: Vec3::new(600, 0, -1200), base_tick: 10 };
    let t = Vec3::new(1000, 2000, 3000);
    assert_eq!(e.apply(10, t), t);
    assert_eq!(e.apply(5, t), t);
    assert_eq!(e.apply(70, t), Vec3::new(1600, 2000, 1800));
    assert_eq!(e.apply(40, t), Vec3::new(1300, 2000, 2400));
    assert_eq!(e.apply(11, t), Vec3::new(1010, 2000, 2980));
}

#[test]
fn integer_square_roots() {
    assert_eq!(isqrt(0), 0);
    assert_eq!(isqrt(34_000_000), 5830);
    assert_eq!(isqrt_ceil(34_000_000), 5831);
    assert_eq!(isqrt_ceil(2_000_000), 1415);
    assert_eq!(isqrt(4_000_000_000_000_000_000), 2_000_000_000);
}

#[test]
fn replay_moves_by_each_input() {
    let mut q = FpsControllerInputQueue::new();
    let mut a = FpsControllerInput::idle(1);
    a.move_x = 1;
    let mut b = FpsControllerInput::idle(2);
    b.move_x = 1;
    b.move_z = 1;
    q.push_back(a);
    q.push_back(b);
    let start = Vec3::new(0, 510, 0);
    let r1 = replay(start, &q);
    let r2 = replay(start, &q);
    assert_eq!(r1, r2);
    assert_eq!(r1, Vec3::new(STEP_DISTANCE + 56, 510, 56));
    assert_eq!(step_translation(start, &a), Vec3::new(80, 510, 0));
}

#[test]
fn client_applies_increasing_ticks_only() {
    let mut c = Client::new(1);
    let mut applied = Vec::new();
    for tick in [5u32, 3, 7, 6, 8] {
        if c.apply_frame(&frame_with(tick, None, &[])) {
            applied.push(tick);
        }
    }
    assert_eq!(applied, vec![5, 7, 8]);
    assert_eq!(c.most_recent_tick.unwrap().from_server, 8);
}

#[test]
fn client_drops_malformed_frame() {
    let mut c = Client::new(1);
    let mut f = NetworkFrame::new(1, None);
    f.entities.entities.push(4);
    assert!(!c.apply_frame(&f));
    assert!(c.most_recent_tick.is_none());
}

#[test]
fn client_reconciles_controlled_player() {
    let mut c = Client::new(7);
    let action = c.apply_server_message(ServerMessages::PlayerCreate {
        id: 7,
        entity: 100,
        translation: Vec3::new(0, 510, 0),
    });
    assert_eq!(
        action,
        ClientAction::SpawnPlayer { entity: 0, translation: Vec3::new(0, 510, 0), controlled: true }
    );
    for s in [10u32, 11, 12] {
        assert!(c.predict_local(strafe(s)));
    }
    assert_eq!(c.entities[0].translation, Vec3::new(240, 510, 0));
    let f = frame_with(1, Some(11), &[(100, Vec3::new(100, 510, 0), Vec3::new(0, 0, 0))]);
    assert!(c.apply_frame(&f));
    assert_eq!(serials(&c.input_queue), vec![12]);
    assert_eq!(c.last_server_serial, Some(11));
    assert_eq!(c.entities[0].translation, Vec3::new(180, 510, 0));
    assert_eq!(c.entities[0].from_server, Vec3::new(100, 510, 0));
    assert_eq!(c.entities[0].role, EntityRole::Controlled);
}

#[test]
fn client_skips_reconciliation_without_controlled_entity() {
    let mut c = Client::new(7);
    c.apply_server_message(ServerMessages::PlayerCreate {
        id: 7,
        entity: 100,
        translation: Vec3::new(0, 0, 0),
    });
    c.predict_local(strafe(1));
    let f = frame_with(1, Some(1), &[(555, Vec3::new(9, 9, 9), Vec3::new(0, 0, 0))]);
    assert!(c.apply_frame(&f));
    assert_eq!(serials(&c.input_queue), vec![1]);
    assert_eq!(c.entities[0].translation, Vec3::new(80, 0, 0));
}

#[test]
fn client_extrapolates_remote_entities() {
    let mut c = Client::new(7);
    c.apply_server_message(ServerMessages::PlayerCreate {
        id: 8,
        entity: 200,
        translation: Vec3::new(0, 0, 0),
    });
    let f = frame_with(10, None, &[(200, Vec3::new(1000, 0, 0), Vec3::new(600, 0, 0))]);
    assert!(c.apply_frame(&f));
    assert_eq!(c.entities[0].extrapolate.base_tick, 10);
    c.predict_entities();
    assert_eq!(c.entities[0].translation, Vec3::new(1000, 0, 0));
    c.predict_entities();
    assert_eq!(c.entities[0].translation, Vec3::new(1010, 0, 0));
    assert_eq!(c.most_recent_tick.unwrap().predicted, 12);
}

#[test]
fn client_lifecycle_messages() {
    let mut c = Client::new(7);
    c.apply_server_message(ServerMessages::PlayerCreate {
        id: 8,
        entity: 200,
        translation: Vec3::new(0, 0, 0),
    });
    let spawn = c.apply_server_message(ServerMessages::SpawnProjectile {
        entity: 300,
        translation: Vec3::new(5, 5, 5),
        object_type: ObjectType::Box,
    });
    assert_eq!(
        spawn,
        ClientAction::SpawnObject { entity: 1, translation: Vec3::new(5, 5, 5), object_type: ObjectType::Box }
    );
    assert_eq!(
        c.apply_server_message(ServerMessages::DespawnProjectile { entity: 300 }),
        ClientAction::Despawn { entity: 1 }
    );
    assert_eq!(
        c.apply_server_message(ServerMessages::DespawnProjectile { entity: 300 }),
        ClientAction::Nothing
    );
    assert_eq!(
        c.apply_server_message(ServerMessages::PlayerRemove { id: 8 }),
        ClientAction::Despawn { entity: 0 }
    );
    assert!(c.entities.is_empty());
    assert_eq!(c.apply_server_message(ServerMessages::PlayerRemove { id: 8 }), ClientAction::Nothing);
    // a report for a removed entity is ignored
    let f = frame_with(3, None, &[(200, Vec3::new(1, 1, 1), Vec3::new(0, 0, 0))]);
    assert!(c.apply_frame(&f));
    assert!(c.entities.is_empty());
}

#[test]
fn client_rotation_updates_objects() {
    let mut c = Client::new(7);
    c.apply_server_message(ServerMessages::SpawnProjectile {
        entity: 300,
        translation: Vec3::new(0, 0, 0),
        object_type: ObjectType::Box,
    });
    let mut f = NetworkFrame::new(4, None);
    let q = Quat { x: 0, y: 707, z: 0, w: 707 };
    f.with_rotation.push(300, Vec3::new(1, 2, 3), Vec3::new(0, 0, 0), q);
    assert!(c.apply_frame(&f));
    assert_eq!(c.entities[0].rotation, q);
    assert_eq!(c.entities[0].translation, Vec3::new(1, 2, 3));
}

#[test]
fn server_disconnect_removes_player_from_snapshots() {
    let mut s = Server::new();
    let (existing, created) = s.connect(1).unwrap();
    assert!(existing.is_empty());
    assert_eq!(
        created,
        ServerMessages::PlayerCreate { id: 1, entity: 0, translation: Vec3::new(0, 510, 0) }
    );
    let (existing, _) = s.connect(2).unwrap();
    assert_eq!(existing.len(), 1);
    assert!(s.connect(2).is_none());
    assert!(s.receive_input(1, strafe(1)));
    assert_eq!(s.disconnect(1), ServerMessages::PlayerRemove { id: 1 });
    assert!(s.find_player(1).is_none());
    let (frame, to) = s.network_sync().unwrap();
    assert!(!frame.entities.entities.contains(&0));
    assert_eq!(frame.entities.entities, vec![1]);
    assert_eq!(to, vec![(2, None)]);
    assert_eq!(frame.tick, 0);
    let (frame, _) = s.network_sync().unwrap();
    assert_eq!(frame.tick, 1);
}

#[test]
fn server_applies_inputs_in_order() {
    let mut s = Server::new();
    s.connect(9).unwrap();
    assert!(s.receive_input(9, strafe(1)));
    assert!(s.receive_input(9, strafe(2)));
    assert!(s.receive_input(9, strafe(2)));
    assert_eq!(serials(&s.players[0].input_queue), vec![1, 2, 2]);
    assert!(!s.receive_input(4, strafe(3)));
    let mut bad = strafe(3);
    bad.move_x = 5;
    assert!(!s.receive_input(9, bad));
    let linvel = s.move_player(9, true, 16);
    assert_eq!(linvel, Some(Vec3::new(2272, 0, 0)));
    assert!(s.receive_input(9, strafe(2)));
    assert_eq!(s.move_player(9, true, 16), None);
    assert_eq!(s.players[0].input_queue.len(), 0);
    let (frame, to) = s.network_sync().unwrap();
    assert_eq!(to, vec![(9, Some(2))]);
    assert_eq!(frame.entities.velocities, vec![Vec3::new(2944, 0, 0)]);
    assert!(s.set_player_translation(9, Vec3::new(1, 2, 3)));
    assert_eq!(s.players[0].translation, Vec3::new(1, 2, 3));
}

#[test]
fn server_attack_spawns_and_expires_fireball() {
    let mut s = Server::new();
    s.connect(3).unwrap();
    let msg = s
        .receive_command(3, PlayerCommand::BasicAttack { cast_at: Vec3::new(5000, 0, 0) })
        .unwrap();
    assert_eq!(
        msg,
        ServerMessages::SpawnProjectile {
            entity: 1,
            translation: Vec3::new(700, 1000, 0),
            object_type: ObjectType::Projectile,
        }
    );
    assert_eq!(s.projectiles[0].velocity, Vec3::new(10_000, 0, 0));
    assert!(s.age_projectiles(1000).is_empty());
    assert_eq!(s.age_projectiles(500), vec![1]);
    assert_eq!(s.despawn_object(1), Some(ServerMessages::DespawnProjectile { entity: 1 }));
    assert_eq!(s.despawn_object(1), None);
    assert!(s.receive_command(99, PlayerCommand::BasicAttack { cast_at: Vec3::new(0, 0, 0) }).is_none());
}

#[test]
fn server_boxes_go_with_rotation() {
    let mut s = Server::new();
    let msg = s.add_cube(Vec3::new(0, 3000, 0)).unwrap();
    assert_eq!(
        msg,
        ServerMessages::SpawnProjectile {
            entity: 0,
            translation: Vec3::new(0, 3000, 0),
            object_type: ObjectType::Box,
        }
    );
    let q = Quat { x: 0, y: 0, z: 707, w: 707 };
    assert!(s.set_object_state(0, Vec3::new(0, 2000, 0), Vec3::new(0, -100, 0), q));
    let (frame, _) = s.network_sync().unwrap();
    assert!(frame.entities.entities.is_empty());
    assert_eq!(frame.with_rotation.entities, vec![0]);
    assert_eq!(frame.with_rotation.rotations, vec![q]);
}

#[test]
fn position_log_put_discard_delta() {
    let mut log = FpsControllerLog::new();
    assert!(log.put(5, &Vec3::new(10, 0, 0)));
    assert!(log.put(3, &Vec3::new(1, 0, 0)));
    assert!(!log.put(5, &Vec3::new(99, 0, 0)));
    assert_eq!(log.pos.iter().map(|p| p.0).collect::<Vec<_>>(), vec![3, 5]);
    assert_eq!(log.get_delta(&Vec3::new(4, 0, 0), 5), Some(Vec3::new(6, 0, 0)));
    assert_eq!(log.get_delta(&Vec3::new(4, 0, 0), 4), None);
    log.discard(4);
    assert_eq!(log.pos.iter().map(|p| p.0).collect::<Vec<_>>(), vec![5]);
    log.discard(5);
    assert!(log.pos.is_empty());
}

#[test]
fn position_log_discard_drops_acknowledged_serial() {
    let mut log = FpsControllerLog::new();
    for s in [10u32, 11, 12] {
        log.put(s, &Vec3::new(0, 0, 0));
    }
    log.discard(11);
    assert_eq!(log.pos.iter().map(|p| p.0).collect::<Vec<_>>(), vec![12]);
    assert_eq!(log.get_delta(&Vec3::new(0, 0, 0), 11), None);
    assert!(log.get_delta(&Vec3::new(0, 0, 0), 12).is_some());
}

#[test]
fn frame_time_parts() {
    let t = FrameTime::new(25_000);
    assert_eq!(t.frames(), 1);
    assert_eq!(t.thousandths(), 500);
}

#[test]
fn channel_ids() {
    assert_eq!(ClientChannel::Input.id(), 0);
    assert_eq!(ClientChannel::Command.id(), 1);
    assert_eq!(ServerChannel::ServerMessages.id(), 0);
    assert_eq!(ServerChannel::NetworkFrame.id(), 1);
}

#[test]
fn datagram_framing_round_trip() {
    let d = encode_client_datagram(1, 0x0102_0304_0506_0708, &vec![9, 9]);
    assert_eq!(d, vec![1, 8, 7, 6, 5, 4, 3, 2, 1, 9, 9]);
    assert_eq!(decode_client_datagram(&d), Some((1, 0x0102_0304_0506_0708, vec![9, 9])));
    assert_eq!(decode_client_datagram(&vec![1, 2, 3]), None);
    let e = encode_client_datagram(0, u64::MAX, &vec![]);
    assert_eq!(decode_client_datagram(&e), Some((0, u64::MAX, vec![])));
    let s = encode_server_datagram(1, &vec![4, 5]);
    assert_eq!(s, vec![1, 4, 5]);
    assert_eq!(decode_server_datagram(&s), Some((1, vec![4, 5])));
    assert_eq!(decode_server_datagram(&vec![]), None);
}

#[test]
fn position_logs_compare_common_serials() {
    let mut client = FpsControllerLog::new();
    let mut server = FpsControllerLog::new();
    client.put(1, &Vec3::new(100, 0, 0));
    client.put(2, &Vec3::new(200, 0, 0));
    client.put(4, &Vec3::new(400, 0, 0));
    server.put(2, &Vec3::new(150, 10, 0));
    server.put(3, &Vec3::new(300, 0, 0));
    server.put(4, &Vec3::new(400, 0, -5));
    assert_eq!(
        client.common_deltas(&server),
        vec![(2, Vec3::new(50, -10, 0)), (4, Vec3::new(0, 0, 5))]
    );
    assert_eq!(client.position_of(4), Some(Vec3::new(400, 0, 0)));
    assert_eq!(client.position_of(3), None);
}

#[test]
fn client_next_input_queues_stamps_and_predicts() {
    let mut c = Client::new(7);
    c.apply_server_message(ServerMessages::PlayerCreate {
        id: 7,
        entity: 100,
        translation: Vec3::new(0, 0, 0),
    });
    assert!(c.apply_frame(&frame_with(4, None, &[])));
    let config = FpsControllerConfig { enable_input: true };
    let keys = KeyState {
        forward: false,
        back: false,
        left: false,
        right: true,
        up: false,
        down: false,
        sprint: false,
        jump: false,
        fly_pressed: false,
        crouch: false,
    };
    let mut serial = FpsControllerSerial::new(1);
    let i = c.next_input(&config, &keys, 0, -1000, &mut serial).unwrap();
    assert_eq!((i.serial, i.move_x, i.most_recent_tick), (1, 1, Some(4)));
    assert_eq!(serial.next, 2);
    assert_eq!(serials(&c.input_queue), vec![1]);
    assert_eq!(c.entities[0].translation, Vec3::new(80, 0, 0));
    let off = FpsControllerConfig { enable_input: false };
    assert!(c.next_input(&off, &keys, 0, -1000, &mut serial).is_none());
    assert_eq!(serial.next, 2);
    let mut behind = FpsControllerSerial::new(1);
    assert!(c.next_input(&config, &keys, 0, -1000, &mut behind).is_none());
    assert_eq!(serials(&c.input_queue), vec![1]);
}

#[test]
fn server_object_state_for_unknown_entity() {
    let mut s = Server::new();
    s.add_cube(Vec3::new(0, 0, 0)).unwrap();
    assert!(!s.set_object_state(42, Vec3::new(1, 1, 1), Vec3::new(0, 0, 0), Quat::identity()));
    assert_eq!(s.cubes[0].translation, Vec3::new(0, 0, 0));
}

#[test]
fn first_input_with_serial_zero_is_applied() {
    let mut c = FpsController::default();
    assert_eq!(c.last_applied_serial, None);
    let mut q = FpsControllerInputQueue::new();
    q.push_back(strafe(0));
    q.push_back(strafe(0));
    fps_controller_move(&mut c, &mut q, true, 16);
    assert_eq!(c.last_applied_serial, Some(0));
    assert_eq!(c.velocity, Vec3::new(1600, 0, 0));
}

#[test]
fn client_keeps_queue_until_server_applies_input() {
    let mut c = Client::new(7);
    c.apply_server_message(ServerMessages::PlayerCreate {
        id: 7,
        entity: 100,
        translation: Vec3::new(0, 0, 0),
    });
    assert!(c.predict_local(strafe(0)));
    let f = frame_with(1, None, &[(100, Vec3::new(0, 0, 0), Vec3::new(0, 0, 0))]);
    assert!(c.apply_frame(&f));
    assert_eq!(serials(&c.input_queue), vec![0]);
    assert_eq!(c.last_server_serial, None);
    assert_eq!(c.entities[0].translation, Vec3::new(80, 0, 0));
    let f = frame_with(2, Some(0), &[(100, Vec3::new(80, 0, 0), Vec3::new(0, 0, 0))]);
    assert!(c.apply_frame(&f));
    assert!(serials(&c.input_queue).is_empty());
    assert_eq!(c.entities[0].translation, Vec3::new(80, 0, 0));
}
