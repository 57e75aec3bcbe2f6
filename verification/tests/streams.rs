use mmo_stream::buffer::{PlayerData, StreamBuffer, MAX_STREAM};
use mmo_stream::grid::GridNode;
use mmo_stream::router::{Router, CELL_SIZE, VIEW_RADIUS};
use mmo_stream::simulation::{in_time, moves_per_round, next_crowd, Simulation, CROWD_STEP, START_CROWD, TARGET_TPS};
use mmo_stream::single::Single;

fn single(x: f32) -> Single {
    Single { bits: x.to_bits() }
}

fn player(id: u32, x: f32, y: f32) -> PlayerData {
    PlayerData { id, x: single(x), y: single(y) }
}

fn ids(buf: &StreamBuffer) -> Vec<u32> {
    (0..buf.len()).map(|i| buf.get(i).id).collect()
}

/// Whether `p` sees `q`, by the arithmetic of the machine.
fn sees(p: &PlayerData, q: &PlayerData) -> bool {
    let (px, py) = (f32::from_bits(p.x.bits), f32::from_bits(p.y.bits));
    let (qx, qy) = (f32::from_bits(q.x.bits), f32::from_bits(q.y.bits));
    q.id != p.id && (qx - px).abs() <= 50.0 && (qy - py).abs() <= 50.0
}

#[test]
fn constants_are_the_usual_ones() {
    assert_eq!(f32::from_bits(VIEW_RADIUS), 50.0);
    assert_eq!(CELL_SIZE, 50);
    assert_eq!(MAX_STREAM, 50);
}

#[test]
fn buffer_takes_fifty_players() {
    let mut buf = StreamBuffer::new();
    assert_eq!(buf.len(), 0);
    for i in 0..50 {
        assert!(buf.push(player(i, i as f32, 0.0)));
    }
    assert_eq!(buf.len(), 50);
    assert!(!buf.push(player(50, 0.0, 0.0)));
    assert_eq!(buf.len(), 50);
    assert_eq!(buf.get(49), player(49, 49.0, 0.0));
    assert_eq!(ids(&buf), (0..50).collect::<Vec<u32>>());
}

#[test]
fn node_finds_those_in_the_box() {
    let mut node = GridNode::new();
    node.insert(player(1, 100.0, 100.0));
    node.insert(player(2, 150.0, 50.0));
    node.insert(player(3, 150.01, 100.0));
    node.insert(player(4, 50.0, 150.0));
    node.insert(player(5, 100.0, 49.99));
    let mut buf = StreamBuffer::new();
    node.query_neighbors(single(100.0), single(100.0), single(50.0), 1, &mut buf);
    assert_eq!(ids(&buf), vec![2, 4]);
    node.query_neighbors(single(100.0), single(100.0), single(50.0), 9, &mut buf);
    assert_eq!(ids(&buf), vec![2, 4, 1, 2, 4]);
    node.clear();
    let mut none = StreamBuffer::new();
    node.query_neighbors(single(100.0), single(100.0), single(50.0), 1, &mut none);
    assert_eq!(none.len(), 0);
}

#[test]
fn node_stops_at_a_full_buffer() {
    let mut node = GridNode::new();
    for i in 0..80 {
        node.insert(player(i, 10.0, 10.0));
    }
    let mut buf = StreamBuffer::new();
    buf.push(player(1000, 0.0, 0.0));
    node.query_neighbors(single(10.0), single(10.0), single(50.0), 3, &mut buf);
    let mut expected: Vec<u32> = vec![1000];
    expected.extend((0..51).filter(|i| *i != 3).take(49));
    assert_eq!(ids(&buf), expected);
}

#[test]
fn nobody_is_near_what_is_no_number() {
    let mut node = GridNode::new();
    node.insert(player(1, f32::NAN, 0.0));
    node.insert(player(2, f32::INFINITY, 0.0));
    node.insert(player(3, 0.0, 0.0));
    let mut buf = StreamBuffer::new();
    node.query_neighbors(single(0.0), single(0.0), single(50.0), 9, &mut buf);
    assert_eq!(ids(&buf), vec![3]);
    let mut all = StreamBuffer::new();
    node.query_neighbors(single(0.0), single(0.0), single(f32::INFINITY), 9, &mut all);
    assert_eq!(ids(&all), vec![2, 3]);
}

#[test]
fn squares_are_numbered_by_fifties() {
    let r = Router::new();
    assert_eq!(r.get_grid_coord(single(0.0), single(49.999)), (0, 0));
    assert_eq!(r.get_grid_coord(single(50.0), single(99.99999)), (1, 1));
    assert_eq!(r.get_grid_coord(single(9_999.0), single(100.0)), (199, 2));
    assert_eq!(r.get_grid_coord(single(-1.0), single(f32::NAN)), (0, 0));
    assert_eq!(r.get_grid_coord(single(f32::INFINITY), single(1e30)), (usize::MAX, usize::MAX));
}

#[test]
fn stream_goes_row_by_row() {
    let mut r = Router::new();
    // One player in each of the nine squares around (75, 75), and one further away.
    let mut id = 0;
    for y in [110.0, 75.0, 40.0] {
        for x in [110.0, 75.0, 40.0] {
            r.update_player_location(player(id, x, y));
            id += 1;
        }
    }
    r.update_player_location(player(99, 160.0, 75.0));
    let buf = r.stream_data_for(&player(4, 75.0, 75.0));
    assert_eq!(ids(&buf), vec![8, 7, 6, 5, 3, 2, 1, 0]);
}

#[test]
fn stream_at_the_edges_of_the_map() {
    let mut r = Router::new();
    r.update_player_location(player(1, 0.0, 0.0));
    r.update_player_location(player(2, 50.0, 50.0));
    r.update_player_location(player(3, -30.0, 10.0));
    r.update_player_location(player(4, f32::INFINITY, f32::INFINITY));
    assert_eq!(ids(&r.stream_data_for(&player(1, 0.0, 0.0))), vec![3, 2]);
    assert_eq!(ids(&r.stream_data_for(&player(5, f32::INFINITY, f32::INFINITY))), vec![]);
}

#[test]
fn stream_is_cut_at_fifty() {
    let mut r = Router::new();
    for i in 0..30 {
        r.update_player_location(player(i, 40.0, 40.0));
    }
    for i in 30..60 {
        r.update_player_location(player(i, 60.0, 40.0));
    }
    let buf = r.stream_data_for(&player(1000, 45.0, 45.0));
    assert_eq!(ids(&buf), (0..50).collect::<Vec<u32>>());
}

#[test]
fn flush_empties_every_square() {
    let mut r = Router::new();
    for i in 0..1000u32 {
        r.update_player_location(player(i, (i % 100) as f32 * 70.0, (i / 100) as f32 * 70.0));
    }
    let asker = player(5000, 700.0, 350.0);
    assert!(r.stream_data_for(&asker).len() > 0);
    r.flush();
    assert_eq!(r.stream_data_for(&asker).len(), 0);
    r.update_player_location(player(7, 710.0, 350.0));
    assert_eq!(ids(&r.stream_data_for(&asker)), vec![7]);
}

#[test]
fn all_streams_come_in_order() {
    let mut r = Router::new();
    let players: Vec<PlayerData> =
        (0..500u32).map(|i| player(i, (i % 25) as f32 * 31.0, (i / 25) as f32 * 29.0)).collect();
    for p in &players {
        r.update_player_location(*p);
    }
    let streams = r.stream_all(&players);
    assert_eq!(streams.len(), players.len());
    for (p, s) in players.iter().zip(&streams) {
        assert_eq!(ids(s), ids(&r.stream_data_for(p)));
        let mut told = ids(s);
        told.sort();
        let expected: Vec<u32> = players.iter().filter(|q| sees(p, q)).map(|q| q.id).collect();
        assert_eq!(told, expected);
    }
}

#[test]
fn players_start_where_the_formula_says() {
    let sim = Simulation::new(60_000);
    assert_eq!(sim.players.len(), 60_000);
    for (i, p) in sim.players.iter().enumerate() {
        assert_eq!(p.id, i as u32);
        assert_eq!(p.x.bits, ((i as f32 * 13.0) % 10_000.0).to_bits());
        assert_eq!(p.y.bits, ((i as f32 * 17.0) % 10_000.0).to_bits());
    }
    assert_eq!(f32::from_bits(sim.players[1000].x.bits), 3_000.0);
    assert_eq!(f32::from_bits(sim.players[1000].y.bits), 7_000.0);
}

#[test]
fn a_tick_moves_everybody_and_tells_of_those_in_sight() {
    let mut sim = Simulation::new(4_000);
    for t in 1..4u32 {
        let streams = sim.tick();
        assert_eq!(streams.len(), 4_000);
        for (i, p) in sim.players.iter().enumerate() {
            let start = (i as f32 * 13.0) % 10_000.0;
            assert_eq!(p.x.bits, ((start + t as f32) % 10_000.0).to_bits());
        }
        for i in (0..4_000).step_by(37) {
            let p = sim.players[i];
            let mut told = ids(&streams[i]);
            told.sort();
            let expected: Vec<u32> =
                sim.players.iter().filter(|q| sees(&p, q)).map(|q| q.id).collect();
            assert!(expected.len() <= MAX_STREAM);
            assert_eq!(told, expected);
        }
    }
}

#[test]
fn a_run_is_thirty_ticks_round_the_map() {
    let mut sim = Simulation::new(800);
    sim.run();
    for (i, p) in sim.players.iter().enumerate() {
        let x = (13 * i + TARGET_TPS) % 10_000;
        let y = (17 * i + TARGET_TPS) % 10_000;
        assert_eq!(f32::from_bits(p.x.bits), x as f32);
        assert_eq!(f32::from_bits(p.y.bits), y as f32);
    }
}

#[test]
fn the_crowd_grows_until_it_is_too_slow() {
    assert!(in_time(0));
    assert!(in_time(1_000_000_000));
    assert!(!in_time(1_000_000_001));
    assert_eq!(next_crowd(50_000, true), Some(100_000));
    assert_eq!(next_crowd(usize::MAX, false), None);
    assert_eq!(next_crowd(100_000, false), None);
    assert_eq!((START_CROWD, CROWD_STEP), (50_000, 50_000));
    assert_eq!(moves_per_round(50_000), 1_500_000);
}

#[test]
fn sight_ends_where_rounding_ends_it() {
    // Half a step of single precision beyond 50 is rounded away, the next number is not.
    let near = 50.0f32;
    let beyond = f32::from_bits(near.to_bits() + 1);
    let half = (beyond - near) / 2.0;
    let view = single(50.0);
    assert!(single(near).near(single(-half), view));
    assert!(!single(beyond).near(single(0.0), view));
    assert!(!single(near).near(single(-half * 1.5), view));
}

#[test]
fn squares_follow_the_position_without_rounding_up() {
    let r = Router::new();
    for n in [1u32, 2, 199, 200, 335_544] {
        let edge = 50.0 * n as f32;
        let below = f32::from_bits(edge.to_bits() - 1);
        assert_eq!(r.get_grid_coord(single(edge), single(below)), (n as usize, n as usize - 1));
    }
    // Further out the quotient itself is rounded up.
    let far = 50.0 * 1_048_577.0 - 2.0;
    assert_eq!(r.get_grid_coord(single(far), single(0.0)), (1_048_577, 0));
}

#[test]
fn far_players_start_on_rounded_products() {
    let i = 1_290_557usize;
    let sim = Simulation::new(i + 1);
    let p = sim.players[i];
    assert_eq!(13 * i, 16_777_241);
    assert_eq!(f32::from_bits(p.x.bits), 7_240.0);
    assert_eq!(p.x.bits, ((i as f32 * 13.0) % 10_000.0).to_bits());
}

/// All slots of a buffer, those behind its list included.
fn slots(buf: &StreamBuffer) -> Vec<PlayerData> {
    (0..MAX_STREAM).map(|i| buf.get(i)).collect()
}

fn blank() -> PlayerData {
    player(0, 0.0, 0.0)
}

#[test]
fn a_new_buffer_is_blank() {
    assert_eq!(slots(&StreamBuffer::new()), vec![blank(); 50]);
}

#[test]
fn pushing_changes_one_slot() {
    let mut buf = StreamBuffer::new();
    let mut expected = vec![blank(); 50];
    for i in 0..60u32 {
        let p = player(i + 1, i as f32, -1.0);
        assert_eq!(buf.push(p), i < 50);
        if i < 50 {
            expected[i as usize] = p;
        }
        assert_eq!(buf.len(), (i as usize + 1).min(50));
        assert_eq!(slots(&buf), expected);
    }
}

#[test]
fn a_query_changes_the_slots_it_fills() {
    let mut node = GridNode::new();
    node.insert(player(1, 10.0, 10.0));
    node.insert(player(2, 500.0, 10.0));
    node.insert(player(3, 20.0, 20.0));
    let mut buf = StreamBuffer::new();
    buf.push(player(9, 1.0, 1.0));
    node.query_neighbors(single(10.0), single(10.0), single(50.0), 7, &mut buf);
    let mut expected = vec![blank(); 50];
    expected[0] = player(9, 1.0, 1.0);
    expected[1] = player(1, 10.0, 10.0);
    expected[2] = player(3, 20.0, 20.0);
    assert_eq!(slots(&buf), expected);
    for (x, r) in [(10.0, -1.0), (10.0, f32::NAN), (f32::NAN, 50.0), (9_000.0, 50.0)] {
        node.query_neighbors(single(x), single(10.0), single(r), 7, &mut buf);
        assert_eq!((buf.len(), slots(&buf)), (3, expected.clone()));
    }
    node.clear();
    node.query_neighbors(single(10.0), single(10.0), single(50.0), 7, &mut buf);
    assert_eq!((buf.len(), slots(&buf)), (3, expected));
}

#[test]
fn a_query_can_be_made_in_parts() {
    for (n, k, start) in [(10u32, 4u32, 0u32), (60, 30, 0), (60, 55, 0), (30, 10, 45), (5, 5, 50)] {
        let mut whole = GridNode::new();
        let mut first = GridNode::new();
        let mut second = GridNode::new();
        for i in 0..n {
            let p = player(i, (i % 7) as f32 * 10.0, 0.0);
            whole.insert(p);
            if i < k {
                first.insert(p);
            } else {
                second.insert(p);
            }
        }
        let mut at_once = StreamBuffer::new();
        for i in 0..start {
            at_once.push(player(1000 + i, 0.0, 0.0));
        }
        let mut in_parts = at_once;
        whole.query_neighbors(single(0.0), single(0.0), single(50.0), 3, &mut at_once);
        first.query_neighbors(single(0.0), single(0.0), single(50.0), 3, &mut in_parts);
        second.query_neighbors(single(0.0), single(0.0), single(50.0), 3, &mut in_parts);
        assert_eq!(at_once.len(), in_parts.len());
        assert_eq!(slots(&at_once), slots(&in_parts));
    }
}

#[test]
fn streams_have_blank_slots_behind_them() {
    let mut r = Router::new();
    r.update_player_location(player(1, 10.0, 10.0));
    r.update_player_location(player(2, 60.0, 10.0));
    let players = vec![player(1, 10.0, 10.0), player(2, 60.0, 10.0)];
    let mut expected = vec![blank(); 50];
    expected[0] = players[1];
    assert_eq!(slots(&r.stream_data_for(&players[0])), expected);
    expected[0] = players[0];
    assert_eq!(slots(&r.stream_all(&players)[1]), expected);
}

#[test]
fn a_flushed_router_streams_as_a_new_one() {
    let mut flushed = Router::new();
    for i in 0..500u32 {
        flushed.update_player_location(player(i, (i % 20) as f32 * 9.0, (i / 20) as f32 * 9.0));
    }
    flushed.flush();
    let mut fresh = Router::new();
    let asker = player(1000, 50.0, 50.0);
    assert_eq!(flushed.stream_data_for(&asker).len(), 0);
    for i in 0..40u32 {
        let p = player(i, i as f32 * 7.0, 40.0);
        flushed.update_player_location(p);
        fresh.update_player_location(p);
        let (a, b) = (flushed.stream_data_for(&asker), fresh.stream_data_for(&asker));
        assert_eq!((a.len(), slots(&a)), (b.len(), slots(&b)));
    }
}

#[test]
fn one_more_update_adds_one_entry_at_most() {
    let mut r = Router::new();
    let p = player(1000, 75.0, 75.0);
    let mut state = 1u32;
    for i in 0..400u32 {
        let a = r.stream_data_for(&p);
        state = state.wrapping_mul(1_664_525).wrapping_add(1_013_904_223);
        let id = if i % 10 == 0 { 1000 } else { i };
        let q = player(id, (state >> 16) as f32 / 300.0, (state & 0xFFFF) as f32 / 300.0);
        r.update_player_location(q);
        let b = r.stream_data_for(&p);
        if !sees(&p, &q) {
            assert_eq!((a.len(), slots(&a)), (b.len(), slots(&b)));
        } else if a.len() < MAX_STREAM {
            let (before, mut after) = (ids(&a), ids(&b));
            let at = after.iter().position(|x| *x == id).unwrap();
            after.remove(at);
            assert_eq!(before, after);
        } else {
            assert_eq!(b.len(), MAX_STREAM);
        }
    }
    assert_eq!(r.stream_data_for(&p).len(), MAX_STREAM);
}
