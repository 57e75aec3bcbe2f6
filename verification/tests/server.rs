use mmo_stream::layout::{plan_buffers, workgroups, BufferPlan, HASH_SIZE};
use mmo_stream::records::{
    apply_action, fresh_allocator, input_bytes, load_words, move_of, new_players, player_bytes, random_move,
    read_back, rest, resting, InputAction, MovePlan, MoveStep, PlayerData, PlayerInput,
    ReadBackError, MOVES_PER_BATCH, MOVE_SPEED, NO_PLAYER,
};
use mmo_stream::single::Single;
use mmo_stream::ticker::{expected_ticks, Arrival, Pipeline, Report, Ticker};

fn single(x: f32) -> Single {
    Single { bits: x.to_bits() }
}

#[test]
fn buffers_for_a_million_players() {
    assert_eq!(HASH_SIZE, 1_000_003);
    assert_eq!(
        plan_buffers(1_000_000, 1 << 27),
        Some(BufferPlan {
            spatial_size: 24_000_024,
            player_offset: 8_000_024,
            players_size: 16_000_000,
            inputs_size: 16_000_000,
            outputs_size: 8_000_000,
            neighbors_size: 80_000_000,
            allocator_size: 4,
        })
    );
    assert!(plan_buffers(1_000_000, 24_000_024).is_some());
    assert_eq!(plan_buffers(1_000_000, 24_000_023), None);
}

#[test]
fn groups_cover_every_player() {
    assert_eq!(workgroups(0), 0);
    assert_eq!(workgroups(1), 1);
    assert_eq!(workgroups(256), 1);
    assert_eq!(workgroups(257), 2);
    assert_eq!(workgroups(1_000_000), 3907);
    assert_eq!(workgroups(HASH_SIZE), 3907);
    assert_eq!(workgroups(u32::MAX as usize - 255), 16_777_215);
}

#[test]
fn actions_change_one_input() {
    let mut inputs = resting(4);
    assert_eq!(inputs, vec![rest(); 4]);
    let go = InputAction::Move {
        id: 2,
        dir_x: single(0.5),
        dir_y: single(-0.25),
        speed: single(5000.0),
    };
    apply_action(&mut inputs, go);
    let moving = PlayerInput {
        dir_x: single(0.5),
        dir_y: single(-0.25),
        speed: single(5000.0),
        pad: 0,
    };
    assert_eq!(inputs, vec![rest(), rest(), moving, rest()]);
    apply_action(&mut inputs, InputAction::Stop { id: 2 });
    assert_eq!(inputs, vec![rest(); 4]);
}

#[test]
fn moves_are_made_at_the_usual_speed() {
    assert_eq!(f32::from_bits(MOVE_SPEED), 5000.0);
    assert_eq!(
        move_of(7, single(1.0), single(-1.0)),
        InputAction::Move { id: 7, dir_x: single(1.0), dir_y: single(-1.0), speed: single(5000.0) }
    );
}

#[test]
fn random_moves_pick_players_of_the_crowd() {
    let mut seen = vec![false; 10];
    for _ in 0..2_000 {
        match random_move(10, single(0.5), single(0.25)) {
            InputAction::Move { id, dir_x, dir_y, speed } => {
                assert_eq!((dir_x, dir_y, speed), (single(0.5), single(0.25), single(5000.0)));
                seen[id as usize] = true;
            }
            InputAction::Stop { .. } => panic!("a move was asked for"),
        }
    }
    assert!(seen.iter().all(|s| *s));
    assert!(matches!(random_move(1, single(0.0), single(0.0)), InputAction::Move { id: 0, .. }));
}

#[test]
fn new_players_are_numbered_and_unchained() {
    let players = new_players(&vec![(single(1.5), single(2.5)), (single(3.0), single(4.0))]);
    assert_eq!(
        players,
        vec![
            PlayerData { next: NO_PLAYER, id: 0, x: single(1.5), y: single(2.5) },
            PlayerData { next: NO_PLAYER, id: 1, x: single(3.0), y: single(4.0) },
        ]
    );
}

#[test]
fn records_are_the_bytes_in_memory() {
    let players = new_players(&vec![(single(1.5), single(-2.5)), (single(3.0), single(4.0))]);
    let mut expected: Vec<u8> = Vec::new();
    expected.extend(NO_PLAYER.to_ne_bytes());
    expected.extend(1u32.to_ne_bytes());
    expected.extend(3.0f32.to_ne_bytes());
    expected.extend(4.0f32.to_ne_bytes());
    assert_eq!(player_bytes(&players, 1, 2), expected);
    assert_eq!(player_bytes(&players, 0, 2).len(), 32);
    assert_eq!(player_bytes(&players, 1, 1), Vec::<u8>::new());

    let inputs = vec![PlayerInput {
        dir_x: single(0.5),
        dir_y: single(0.25),
        speed: single(5000.0),
        pad: 0,
    }];
    let mut expected: Vec<u8> = Vec::new();
    expected.extend(0.5f32.to_ne_bytes());
    expected.extend(0.25f32.to_ne_bytes());
    expected.extend(5000.0f32.to_ne_bytes());
    expected.extend(0u32.to_ne_bytes());
    assert_eq!(input_bytes(&inputs), expected);
}

/// Bytes at an address that suits words.
fn aligned(bytes: &[u8]) -> (Vec<u8>, usize) {
    let mut room = vec![0u8; bytes.len() + 8];
    let start = (4 - room.as_ptr() as usize % 4) % 4;
    room[start..start + bytes.len()].copy_from_slice(bytes);
    (room, start)
}

#[test]
fn what_is_read_back_is_what_was_written() {
    let players = new_players(&vec![(single(1.5), single(-2.5)); 3]);
    let bytes = player_bytes(&players, 0, 3);
    let (room, start) = aligned(&bytes);
    let mut other = new_players(&vec![(single(0.0), single(0.0)); 3]);
    assert_eq!(read_back(&mut other, &room[start..start + 48]), Ok(()));
    assert_eq!(other, players);
}

#[test]
fn reading_back_fails_without_a_change() {
    let players = new_players(&vec![(single(1.5), single(-2.5)); 3]);
    let bytes = player_bytes(&players, 0, 3);
    let (room, start) = aligned(&bytes);
    let mut two = new_players(&vec![(single(0.0), single(0.0)); 2]);
    let before = two.clone();
    assert_eq!(read_back(&mut two, &room[start..start + 48]), Err(ReadBackError::Length));
    assert_eq!(read_back(&mut two, &room[start..start + 31]), Err(ReadBackError::Cast));
    assert_eq!(read_back(&mut two, &room[start + 1..start + 33]), Err(ReadBackError::Cast));
    assert_eq!(two, before);
    assert_eq!(load_words(&mut two, &vec![1, 2, 3]), Err(ReadBackError::Length));
    assert_eq!(load_words(&mut two, &vec![1, 2, 3, 4, 5, 6, 7, 8]), Ok(()));
    assert_eq!(two[1], PlayerData { next: 5, id: 6, x: Single { bits: 7 }, y: Single { bits: 8 } });
}

#[test]
fn every_slot_is_completed_or_dropped() {
    let mut t = Ticker::new(100, 1_000);
    assert!(t.running(999));
    assert!(!t.running(1_000));
    assert!(t.due(0));
    t.complete(30);
    assert_eq!(t.next_tick, 100);
    assert!(!t.due(99));
    assert!(t.due(100));
    t.complete(350);
    // The tick at 100 took until 450: the slots at 200, 300 and 400 have passed.
    let mut drops = 0;
    while t.drop_late(450) {
        drops += 1;
    }
    assert_eq!(drops, 3);
    assert_eq!((t.next_tick, t.completed, t.dropped, t.total_work), (500, 2, 3, 380));
    assert!(t.drop_late(500));
    assert_eq!(t.next_tick, 600);
}

#[test]
fn a_second_is_reported_once() {
    let mut t = Ticker::new(33_333_333, 3_600_000_000_000);
    t.complete(5);
    t.complete(5);
    assert!(t.drop_late(100_000_000));
    assert_eq!(t.report(999_999_999), None);
    assert_eq!(t.report(1_000_000_000), Some(Report { ticks: 2, drops: 1 }));
    t.reported(1_000_000_100);
    assert_eq!(t.report(2_000_000_099), None);
    assert_eq!(t.report(2_000_000_100), Some(Report { ticks: 0, drops: 0 }));
    assert_eq!((t.completed, t.dropped), (2, 1));
}

#[test]
fn a_full_run_has_so_many_ticks() {
    assert_eq!(expected_ticks(), 108_000);
}

#[test]
fn the_staging_buffers_take_turns() {
    let mut p = Pipeline::new();
    assert_eq!(p.current(), 0);
    assert_eq!(p.submit(), None);
    assert_eq!(p.current(), 1);
    assert_eq!(p.submit(), Some(0));
    assert_eq!(p.current(), 0);
    assert_eq!(p.submit(), Some(1));
    assert_eq!(p.submit(), Some(0));
}

#[test]
fn both_transfers_have_to_arrive() {
    let mut a = Arrival::new();
    assert!(!a.done());
    a.note(false, true);
    assert!(!a.done());
    a.note(false, false);
    assert_eq!(a, Arrival { players: false, outputs: true });
    a.note(true, false);
    assert!(a.done());
}

#[test]
fn the_last_action_counts() {
    let one = single(1.0);
    let mut inputs = resting(3);
    let actions = [
        move_of(0, one, one),
        move_of(1, one, one),
        InputAction::Stop { id: 1 },
        InputAction::Stop { id: 0 },
        move_of(0, single(0.0), one),
    ];
    for a in actions {
        apply_action(&mut inputs, a);
    }
    let speed = single(5000.0);
    let last = PlayerInput { dir_x: single(0.0), dir_y: one, speed, pad: 0 };
    assert_eq!(inputs, vec![last, rest(), rest()]);
}

#[test]
fn no_neighbour_record_is_given_out_at_first() {
    assert_eq!(fresh_allocator(), vec![0, 0, 0, 0]);
}

#[test]
fn players_lie_behind_the_buckets() {
    let plan = plan_buffers(10, u64::MAX).unwrap();
    assert_eq!(plan.player_offset, 8 * HASH_SIZE as u64);
    assert_eq!(plan.spatial_size, plan.player_offset + plan.players_size);
    assert_eq!(plan.players_size, 160);
    assert_eq!(plan_buffers(0, 0), None);
}

#[test]
fn different_players_have_different_bytes() {
    let a = new_players(&vec![(single(1.0), single(2.0)), (single(3.0), single(4.0))]);
    let mut b = a.clone();
    let bytes = player_bytes(&a, 0, 2);
    assert_eq!(player_bytes(&b, 0, 2), bytes);
    b[1].next = 0;
    assert_ne!(player_bytes(&b, 0, 2), bytes);
}

#[test]
fn moves_come_player_by_player_and_then_in_batches() {
    let mut plan = MovePlan::new(3);
    for id in 0..3 {
        assert_eq!(plan.next(), MoveStep::First { id });
    }
    for _ in 0..3 {
        for _ in 0..MOVES_PER_BATCH {
            assert_eq!(plan.next(), MoveStep::Random);
        }
        assert_eq!(plan.next(), MoveStep::Pause);
    }
    assert_eq!(MOVES_PER_BATCH, 10_000);
    assert_eq!(MovePlan::new(0).next(), MoveStep::Random);
}
