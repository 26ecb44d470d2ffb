use rectsync::input::sample_direction;
use rectsync::mirror::Mirror;
use rectsync::mirror::MirrorError;
use rectsync::placement::random_position;
use rectsync::placement::PLACEMENT_MAX;
use rectsync::placement::PLACEMENT_MIN;
use rectsync::protocol::Dest;
use rectsync::protocol::Direction;
use rectsync::protocol::Outbound;
use rectsync::protocol::Position;
use rectsync::protocol::ServerMessage;
use rectsync::registry::step_of;
use rectsync::registry::Registry;
use rectsync::registry::SPEED;

fn pos(x: i64, y: i64) -> Position {
    Position { x, y }
}

#[test]
fn first_observer_gets_init_then_own_spawn() {
    let mut reg = Registry::new();
    let out = reg.handle_connection(1, pos(3, 4));
    assert_eq!(
        out,
        vec![
            Outbound { dest: Dest::To(1), msg: ServerMessage::InitClient { client_id: 1 } },
            Outbound { dest: Dest::All, msg: ServerMessage::SpawnRect { entity: 0, pos: pos(3, 4) } },
        ]
    );
    assert_eq!(reg.player_count(), 1);
    assert_eq!(reg.entity_count(), 1);
}

#[test]
fn late_joiner_gets_catchup_before_own_spawn() {
    let mut reg = Registry::new();
    let _ = reg.handle_connection(1, pos(0, 0));
    let out = reg.handle_connection(2, pos(5, 7));
    assert_eq!(
        out,
        vec![
            Outbound { dest: Dest::To(2), msg: ServerMessage::SpawnRect { entity: 0, pos: pos(0, 0) } },
            Outbound { dest: Dest::To(2), msg: ServerMessage::InitClient { client_id: 2 } },
            Outbound { dest: Dest::All, msg: ServerMessage::SpawnRect { entity: 1, pos: pos(5, 7) } },
        ]
    );
}

#[test]
fn right_for_one_tick_moves_ten_units() {
    let mut reg = Registry::new();
    let _ = reg.handle_connection(1, pos(0, 0));
    reg.handle_direction(1, Direction::Right);
    let step = step_of(SPEED, 100);
    assert_eq!(step, 10);
    let out = reg.tick(step);
    assert_eq!(
        out,
        vec![Outbound {
            dest: Dest::All,
            msg: ServerMessage::RectMove { entity: 0, pos: pos(10, 0) },
        }]
    );
    assert_eq!(reg.entity_position(0), Some(pos(10, 0)));
}

#[test]
fn disconnect_broadcasts_despawn_and_forgets_both() {
    let mut reg = Registry::new();
    let _ = reg.handle_connection(1, pos(0, 0));
    let _ = reg.handle_connection(2, pos(1, 1));
    let out = reg.handle_connection_lost(1);
    assert_eq!(
        out,
        vec![Outbound { dest: Dest::All, msg: ServerMessage::DespawnRect { entity: 0 } }]
    );
    assert!(!reg.is_connected(1));
    assert!(!reg.contains_entity(0));
    assert!(reg.is_connected(2));
    assert!(reg.contains_entity(1));
}

#[test]
fn idle_direction_emits_no_move() {
    let mut reg = Registry::new();
    let _ = reg.handle_connection(1, pos(2, 2));
    let out = reg.tick(10);
    assert_eq!(out, vec![]);
    assert_eq!(reg.entity_position(0), Some(pos(2, 2)));
}

#[test]
fn zero_step_emits_no_move_even_when_held() {
    let mut reg = Registry::new();
    let _ = reg.handle_connection(1, pos(2, 2));
    reg.handle_direction(1, Direction::Up);
    let out = reg.tick(0);
    assert_eq!(out, vec![]);
}

#[test]
fn each_axis_moves_with_its_sign() {
    let mut reg = Registry::new();
    let _ = reg.handle_connection(1, pos(0, 0));
    reg.handle_direction(1, Direction::Up);
    let _ = reg.tick(3);
    assert_eq!(reg.entity_position(0), Some(pos(0, 3)));
    reg.handle_direction(1, Direction::Down);
    let _ = reg.tick(5);
    assert_eq!(reg.entity_position(0), Some(pos(0, -2)));
    reg.handle_direction(1, Direction::Left);
    let _ = reg.tick(7);
    assert_eq!(reg.entity_position(0), Some(pos(-7, -2)));
    reg.handle_direction(1, Direction::Right);
    let _ = reg.tick(9);
    assert_eq!(reg.entity_position(0), Some(pos(2, -2)));
}

#[test]
fn direction_is_last_write_wins() {
    let mut reg = Registry::new();
    let _ = reg.handle_connection(1, pos(0, 0));
    reg.handle_direction(1, Direction::Up);
    reg.handle_direction(1, Direction::Down);
    let _ = reg.tick(4);
    assert_eq!(reg.entity_position(0), Some(pos(0, -4)));
}

#[test]
fn direction_from_unknown_connection_is_absorbed() {
    let mut reg = Registry::new();
    reg.handle_direction(9, Direction::Left);
    assert_eq!(reg.player_count(), 0);
    let _ = reg.handle_connection(1, pos(0, 0));
    reg.handle_direction(9, Direction::Left);
    let out = reg.tick(10);
    assert_eq!(out, vec![]);
}

#[test]
fn disconnect_of_unknown_connection_is_a_no_op() {
    let mut reg = Registry::new();
    let _ = reg.handle_connection(1, pos(0, 0));
    let out = reg.handle_connection_lost(42);
    assert_eq!(out, vec![]);
    assert_eq!(reg.player_count(), 1);
    assert_eq!(reg.entity_count(), 1);
}

#[test]
fn entity_ids_are_never_reused() {
    let mut reg = Registry::new();
    let _ = reg.handle_connection(1, pos(0, 0));
    let _ = reg.handle_connection_lost(1);
    let out = reg.handle_connection(1, pos(0, 0));
    assert_eq!(
        out[1],
        Outbound { dest: Dest::All, msg: ServerMessage::SpawnRect { entity: 1, pos: pos(0, 0) } }
    );
    assert_eq!(reg.next_id(), 2);
}

#[test]
fn client_ids_lists_connections_in_order() {
    let mut reg = Registry::new();
    let _ = reg.handle_connection(7, pos(0, 0));
    let _ = reg.handle_connection(3, pos(0, 0));
    assert_eq!(reg.client_ids(), vec![7, 3]);
    assert_eq!(reg.linked_entity(7), Some(0));
    assert_eq!(reg.linked_entity(3), Some(1));
    assert_eq!(reg.player_direction(7), Some(Direction::Idle));
}

#[test]
fn mirror_follows_spawn_move_despawn() {
    let mut mir = Mirror::new();
    assert_eq!(mir.apply(ServerMessage::InitClient { client_id: 5 }), Ok(()));
    assert_eq!(mir.own_id(), Some(5));
    assert_eq!(mir.apply(ServerMessage::SpawnRect { entity: 0, pos: pos(1, 2) }), Ok(()));
    assert_eq!(mir.position_of(0), Some(pos(1, 2)));
    assert_eq!(mir.apply(ServerMessage::RectMove { entity: 0, pos: pos(9, 9) }), Ok(()));
    assert_eq!(mir.position_of(0), Some(pos(9, 9)));
    assert_eq!(mir.apply(ServerMessage::DespawnRect { entity: 0 }), Ok(()));
    assert_eq!(mir.position_of(0), None);
    assert_eq!(mir.rect_count(), 0);
}

#[test]
fn applying_the_same_move_twice_changes_nothing_more() {
    let mut mir = Mirror::new();
    let _ = mir.apply(ServerMessage::SpawnRect { entity: 4, pos: pos(0, 0) });
    let mv = ServerMessage::RectMove { entity: 4, pos: pos(7, -3) };
    assert_eq!(mir.apply(mv), Ok(()));
    let once = mir.position_of(4);
    assert_eq!(mir.apply(mv), Ok(()));
    assert_eq!(mir.position_of(4), once);
    assert_eq!(mir.position_of(4), Some(pos(7, -3)));
    assert_eq!(mir.rect_count(), 1);
}

#[test]
fn duplicate_spawn_is_reported() {
    let mut mir = Mirror::new();
    let _ = mir.apply(ServerMessage::SpawnRect { entity: 2, pos: pos(0, 0) });
    let r = mir.apply(ServerMessage::SpawnRect { entity: 2, pos: pos(5, 5) });
    assert_eq!(r, Err(MirrorError::DuplicateSpawn { entity: 2 }));
    // the mirror state is untouched by the violating message
    assert_eq!(mir.position_of(2), Some(pos(0, 0)));
}

#[test]
fn move_of_unmapped_entity_is_reported() {
    let mut mir = Mirror::new();
    let r = mir.apply(ServerMessage::RectMove { entity: 8, pos: pos(1, 1) });
    assert_eq!(r, Err(MirrorError::UnknownEntity { entity: 8 }));
}

#[test]
fn despawn_of_unmapped_entity_is_reported() {
    let mut mir = Mirror::new();
    let r = mir.apply(ServerMessage::DespawnRect { entity: 8 });
    assert_eq!(r, Err(MirrorError::UnknownEntity { entity: 8 }));
}

#[test]
fn key_sampling_priority_is_deterministic() {
    assert_eq!(sample_direction(false, false, false, false), Direction::Idle);
    assert_eq!(sample_direction(true, false, false, false), Direction::Up);
    assert_eq!(sample_direction(false, true, false, false), Direction::Down);
    assert_eq!(sample_direction(false, false, true, false), Direction::Left);
    assert_eq!(sample_direction(false, false, false, true), Direction::Right);
    // a later key in the fixed order wins over an earlier one
    assert_eq!(sample_direction(true, false, false, true), Direction::Right);
    assert_eq!(sample_direction(true, true, false, false), Direction::Down);
    assert_eq!(sample_direction(false, true, true, false), Direction::Left);
}

#[test]
fn step_scales_speed_by_tick_length() {
    assert_eq!(step_of(100, 100), 10);
    assert_eq!(step_of(100, 1000), 100);
    assert_eq!(step_of(100, 16), 1);
    assert_eq!(step_of(0, 100), 0);
}

#[test]
fn random_placement_stays_in_the_region() {
    for _ in 0..100 {
        let p = random_position();
        assert!(PLACEMENT_MIN <= p.x && p.x < PLACEMENT_MAX);
        assert!(PLACEMENT_MIN <= p.y && p.y < PLACEMENT_MAX);
    }
}

#[test]
fn authority_messages_replay_into_a_consistent_mirror() {
    let mut reg = Registry::new();
    let mut mir = Mirror::new();
    // deliver to observer 1 what it is owed: everything To(1) or All
    let mut deliver = |mir: &mut Mirror, out: &[Outbound]| {
        for o in out {
            let to_me = match o.dest {
                Dest::To(c) => c == 1,
                Dest::All => true,
            };
            if to_me {
                mir.apply(o.msg).unwrap();
            }
        }
    };
    let out = reg.handle_connection(1, pos(0, 0));
    deliver(&mut mir, &out);
    let out = reg.handle_connection(2, pos(4, 4));
    deliver(&mut mir, &out);
    reg.handle_direction(2, Direction::Up);
    let out = reg.tick(6);
    deliver(&mut mir, &out);
    assert_eq!(mir.own_id(), Some(1));
    assert_eq!(mir.rect_count(), 2);
    assert_eq!(mir.position_of(0), Some(pos(0, 0)));
    assert_eq!(mir.position_of(1), Some(pos(4, 10)));
    let out = reg.handle_connection_lost(2);
    deliver(&mut mir, &out);
    assert_eq!(mir.rect_count(), 1);
    assert_eq!(mir.position_of(1), None);
}

#[test]
fn late_joiner_replay_reconstructs_all_entities() {
    let mut reg = Registry::new();
    let _ = reg.handle_connection(1, pos(0, 0));
    reg.handle_direction(1, Direction::Up);
    let _ = reg.tick(6);
    // observer 2 joins late and replays only what it is delivered
    let out = reg.handle_connection(2, pos(8, 8));
    let mut mir = Mirror::new();
    for o in &out {
        let to_me = match o.dest {
            Dest::To(c) => c == 2,
            Dest::All => true,
        };
        if to_me {
            mir.apply(o.msg).unwrap();
        }
    }
    assert_eq!(mir.own_id(), Some(2));
    assert_eq!(mir.rect_count(), 2);
    assert_eq!(mir.position_of(0), Some(pos(0, 6)));
    assert_eq!(mir.position_of(1), Some(pos(8, 8)));
}
