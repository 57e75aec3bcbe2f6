use mmo_stream::records::{new_players, player_bytes, PlayerData};
use mmo_stream::shaders::{
    clear_shader, move_shader, push_decimal, render_shader, stream_shader,
};
use mmo_stream::single::Single;
use mmo_stream::viewer::{
    drawable, header_runs_over, hidden_players, payload, Update, ViewerState, HIDDEN, MAX_P_COUNT,
};
use mmo_stream::wire::{broadcast, packet_count, packet_of, read_word, HEADER_BYTES};

fn single(x: f32) -> Single {
    Single { bits: x.to_bits() }
}

fn crowd(n: usize) -> Vec<PlayerData> {
    new_players(&(0..n).map(|i| (single(i as f32), single(2.0 * i as f32))).collect())
}

fn datagram(offset: u32, count: u32, payload: &[u8]) -> Vec<u8> {
    let mut d: Vec<u8> = Vec::new();
    d.extend(offset.to_le_bytes());
    d.extend(count.to_le_bytes());
    d.extend(payload);
    d
}

#[test]
fn datagrams_hold_four_thousand_players() {
    assert_eq!(packet_count(&crowd(0)), 0);
    assert_eq!(packet_count(&crowd(1)), 1);
    assert_eq!(packet_count(&crowd(4_000)), 1);
    assert_eq!(packet_count(&crowd(4_001)), 2);
    let players = crowd(8_001);
    let all = broadcast(&players);
    assert_eq!(all.len(), 3);
    assert_eq!(all[0].len(), 8 + 4_000 * 16);
    assert_eq!(all[2].len(), 8 + 16);
    assert_eq!(all[1], datagram(4_000, 4_000, &player_bytes(&players, 4_000, 8_000)));
    assert_eq!(all[2], datagram(8_000, 1, &player_bytes(&players, 8_000, 8_001)));
    let frame = player_bytes(&players, 0, 8_001);
    for i in 0..3 {
        assert_eq!(packet_of(&frame, 8_001, i), all[i]);
    }
    assert_eq!(broadcast(&crowd(0)).len(), 0);
}

#[test]
fn words_are_read_from_the_lowest_byte() {
    let bytes = [9u8, 0x78, 0x56, 0x34, 0x12, 7];
    assert_eq!(read_word(&bytes, 1), 0x1234_5678);
    assert_eq!(read_word(&[0xFF; 4], 0), u32::MAX);
}

#[test]
fn a_viewer_ends_up_with_all_players() {
    let players = crowd(9_500);
    let all = broadcast(&players);
    let mut mem = vec![0u8; 16 * 10_000];
    let mut viewer = ViewerState::new(0);
    // Out of order, and one of them twice.
    for i in [2usize, 0, 2, 1] {
        let u = viewer.receive(&all[i], 5).unwrap();
        let body = payload(&all[i]);
        assert_eq!(body, &all[i][HEADER_BYTES..]);
        let at = u.byte_offset as usize;
        mem[at..at + body.len()].copy_from_slice(body);
    }
    assert_eq!(&mem[..16 * 9_500], &player_bytes(&players, 0, 9_500)[..]);
    assert!(mem[16 * 9_500..].iter().all(|b| *b == 0));
    assert_eq!(viewer, ViewerState { active: 9_500, last_recv: 5 });
}

#[test]
fn a_viewer_takes_what_fits() {
    let mut v = ViewerState::new(3);
    assert_eq!(v.receive(&[0; 7], 4), None);
    assert_eq!(v, ViewerState { active: 0, last_recv: 3 });
    let fits = datagram(1_999_999, 1, &[1; 16]);
    assert_eq!(v.receive(&fits, 5), Some(Update { byte_offset: 31_999_984, end_idx: 2_000_000 }));
    assert_eq!(v, ViewerState { active: MAX_P_COUNT as u32, last_recv: 5 });
    assert_eq!(v.receive(&datagram(2_000_000, 1, &[1; 16]), 6), None);
    assert_eq!(v.last_recv, 5);
    assert_eq!(
        v.receive(&datagram(0, 0, &[]), 7),
        Some(Update { byte_offset: 0, end_idx: 0 })
    );
    assert_eq!(v, ViewerState { active: MAX_P_COUNT as u32, last_recv: 7 });
}

#[test]
fn a_header_may_count_too_far() {
    assert!(header_runs_over(&datagram(u32::MAX, 1, &[])));
    assert!(!header_runs_over(&datagram(u32::MAX, 0, &[])));
    assert!(!header_runs_over(&[0xFF; 7]));
}

#[test]
fn silence_hides_the_players() {
    let mut v = ViewerState { active: 12, last_recv: 1_000_000 };
    assert_eq!(v.redraw(0), Some(12));
    assert_eq!(v.redraw(1_001_999_999), Some(12));
    assert_eq!(v.redraw(1_002_000_000), None);
    assert_eq!(v.active, 0);
    assert_eq!(v.redraw(1_000_000), None);
}

#[test]
fn hidden_players_are_off_the_map() {
    assert_eq!(f32::from_bits(HIDDEN), -999_999.0);
    let hidden = hidden_players(3);
    assert_eq!(hidden.len(), 3);
    for p in hidden {
        assert_eq!(p, PlayerData { next: 0, id: 0, x: single(-999_999.0), y: single(-999_999.0) });
    }
}

#[test]
fn an_empty_window_is_not_drawn_on() {
    assert!(drawable(1, 1));
    assert!(!drawable(0, 5));
    assert!(!drawable(5, 0));
}

#[test]
fn numbers_are_written_in_decimal() {
    for n in [0u64, 7, 10, 99, 100, 1_000_003, u64::MAX] {
        let mut s = String::from("n");
        push_decimal(&mut s, n);
        assert_eq!(s, format!("n{:?}", n));
    }
}

#[test]
fn programs_have_their_numbers_filled_in() {
    let clear = clear_shader();
    assert!(clear.contains("let h = gid.x; if (h >= 1000003u) { return; }"));
    assert_eq!(clear.matches("1000003").count(), 1);

    let map = format!("{:?}", 100_000_000.0f32);
    let grid = format!("{:?}", 200.0f32);
    let moving = move_shader(&map, &grid);
    assert!(moving.contains("let i = gid.x; if (i >= 1000000u) { return; }"));
    assert!(moving.contains("let off = 1000003u * 2u + i * 4u;"));
    assert!(moving.contains("let ms = 100000000.0 - 1.0;"));
    assert!(moving
        .contains("let h = ((u32(x/200.0)*73856093u)^(u32(y/200.0)*19349663u))%1000003u;"));

    let stream = stream_shader(&grid);
    assert!(stream.contains("let poff = 1000003u * 2u + i * 4u;"));
    assert!(stream.contains("let cx = i32(px/200.0); let cy = i32(py/200.0);"));
    assert!(stream.contains("let oy = select(-1, 1, (py/200.0 - f32(cy)) > 0.5);"));
    assert!(stream.contains("p2 = nodes[1000003u * 2u + p2 * 4u];"));
    assert_eq!(stream.matches("1000003").count(), 4);

    let render = render_shader(&map, &format!("{:?}", 0.0001f32));
    assert!(render.contains("let half_map = 100000000.0 / 2.0;"));
    assert!(render.contains("let ds = 0.0001;"));
    for text in [clear, moving, stream, render] {
        assert_eq!(text.matches('{').count(), text.matches('}').count());
    }
}

#[test]
fn headers_tell_which_players_follow() {
    let all = broadcast(&crowd(10_000));
    let mut next = 0;
    for d in &all {
        assert_eq!(read_word(d, 0), next);
        let count = read_word(d, 4);
        assert!(0 < count && count <= 4_000);
        assert_eq!(d.len(), 8 + 16 * count as usize);
        next += count;
    }
    assert_eq!(next, 10_000);
}

#[test]
fn the_count_does_not_depend_on_the_order() {
    let all = broadcast(&crowd(8_500));
    let mut v = ViewerState::new(0);
    v.receive(&all[1], 1);
    assert_eq!(v.active, 8_000);
    v.receive(&all[0], 2);
    assert_eq!(v.active, 8_000);
    v.receive(&all[2], 3);
    assert_eq!(v.active, 8_500);
    v.receive(&all[0], 4);
    assert_eq!(v.active, 8_500);
}

#[test]
fn the_clearing_program_in_full() {
    let expected = "
        @group(0) @binding(0) var<storage, read_write> nodes: array<atomic<u32>>;
        @compute @workgroup_size(256) fn main(@builtin(global_invocation_id) gid: vec3<u32>) {
            let h = gid.x; if (h >= 1000003u) { return; }
            atomicStore(&nodes[h * 2u], 0xFFFFFFFFu); 
            atomicStore(&nodes[h * 2u + 1u], 0xFFFFFFFFu); 
        }";
    assert_eq!(clear_shader(), expected);
}

#[test]
fn a_payload_may_be_empty() {
    assert_eq!(payload(&datagram(1, 0, &[])), &[] as &[u8]);
    assert_eq!(payload(&datagram(1, 1, &[5; 16])), &[5u8; 16]);
}

#[test]
fn a_viewer_that_counts_further_goes_on_counting() {
    let all = broadcast(&crowd(8_500));
    for (start, expected) in [(0, 8_500), (8_400, 8_500), (9_000, 9_000)] {
        let mut v = ViewerState { active: start, last_recv: 0 };
        for i in [2usize, 0, 1, 0] {
            v.receive(&all[i], 1);
        }
        assert_eq!(v.active, expected);
    }
}

#[test]
fn players_are_hidden_until_they_are_told_of() {
    let hidden = hidden_players(MAX_P_COUNT);
    let mut mem = player_bytes(&hidden, 0, hidden.len());
    assert_eq!(mem.len(), 32_000_000);
    let mut v = ViewerState::new(0);
    let players = crowd(10);
    let d = datagram(100, 10, &player_bytes(&players, 0, 10));
    let u = v.receive(&d, 1).unwrap();
    let body = payload(&d);
    let at = u.byte_offset as usize;
    mem[at..at + body.len()].copy_from_slice(body);
    let one = player_bytes(&hidden, 0, 1);
    for i in [0usize, 50, 99, 110, 111, 1_999_999] {
        assert_eq!(&mem[16 * i..16 * i + 16], &one[..]);
    }
    for i in 100..110 {
        assert_eq!(&mem[16 * i..16 * i + 16], &player_bytes(&players, i - 100, i - 99)[..]);
    }
}

#[test]
fn a_datagram_is_a_header_and_a_part_of_the_frame() {
    let frame: Vec<u8> = (0..16 * 4_002u32).map(|i| (i % 251) as u8).collect();
    assert_eq!(packet_of(&frame, 4_002, 0), datagram(0, 4_000, &frame[..64_000]));
    assert_eq!(packet_of(&frame, 4_002, 1), datagram(4_000, 2, &frame[64_000..]));
}

#[test]
fn hidden_players_are_drawn_off_the_screen() {
    let half = 100_000_000.0f32 / 2.0;
    let x = f32::from_bits(HIDDEN);
    for offset in [-0.0001f32, 0.0001] {
        assert!((x - half) / half + offset < -1.019);
    }
}
