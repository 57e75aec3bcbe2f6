//! A crowd that walks over the map, tick by tick, while each of its players is told about the
//! players around it.
use crate::buffer::{PlayerData, StreamBuffer};
use crate::router::Router;
use crate::single::Single;
use vstd::prelude::*;

verus! {

/// The side of the map.
pub const MAP_SIZE: u32 = 10_000;

/// The number of ticks that make up one second.
pub const TARGET_TPS: usize = 30;

/// The size of the first crowd.
pub const START_CROWD: usize = 50_000;

/// By how much the crowd grows from one round to the next.
pub const CROWD_STEP: usize = 50_000;

/// How long a round may take, in nanoseconds.
pub const ROUND_TIME: u64 = 1_000_000_000;

/// A crowd and the squares that it stands in.
pub struct Simulation {
    pub players: Vec<PlayerData>,
    pub router: Router,
}

/// The number lies on the map: at least zero and less than its side.
pub open spec fn on_map(x: Single) -> bool {
    &&& !x.is_negative()
    &&& x.is_finite()
    &&& x.units() < MAP_SIZE * crate::single::one()
}

/// All players of a list stand on the map.
pub open spec fn all_on_map(s: Seq<PlayerData>) -> bool {
    forall|i: int| 0 <= i < s.len() ==> on_map((#[trigger] s[i]).x) && on_map(s[i].y)
}

/// Where player `i` starts on an axis: `i` times `factor`, brought onto the map. Each step is
/// rounded to single precision.
pub open spec fn start(i: int, factor: int) -> Single {
    let index = crate::single::rounded(i * crate::single::one(), 1);
    let product = crate::single::rounded(crate::single::mag(index) * factor, 1);
    crate::arith::remainder(product, MAP_SIZE as int)
}

/// The player that has number `i` at the start.
pub open spec fn starter(i: int) -> PlayerData {
    PlayerData { id: (i as usize) as u32, x: start(i, 13), y: start(i, 17) }
}

/// A coordinate one tick later: one further, and round the map at its end.
pub open spec fn onward(x: Single) -> Single {
    crate::arith::remainder(
        crate::single::rounded(x.units() + crate::single::one(), 1),
        MAP_SIZE as int,
    )
}

/// A player one tick later.
pub open spec fn walked(p: PlayerData) -> PlayerData {
    PlayerData { id: p.id, x: onward(p.x), y: onward(p.y) }
}

/// All players one tick later.
pub open spec fn all_walked(s: Seq<PlayerData>) -> Seq<PlayerData> {
    s.map_values(|p: PlayerData| walked(p))
}

/// The squares after the players of a list have been put into them one after the other.
pub open spec fn populated(
    m: Map<(usize, usize), Seq<PlayerData>>,
    s: Seq<PlayerData>,
) -> Map<(usize, usize), Seq<PlayerData>>
    decreases s.len(),
{
    if s.len() == 0 {
        m
    } else {
        crate::router::placed(populated(m, s.drop_last()), s.last())
    }
}

/// The players after `n` ticks.
pub open spec fn players_after(s: Seq<PlayerData>, n: nat) -> Seq<PlayerData>
    decreases n,
{
    if n == 0 {
        s
    } else {
        all_walked(players_after(s, (n - 1) as nat))
    }
}

/// The squares after `n` ticks, of which the first finds the players `s` and the squares `m`.
pub open spec fn squares_after(
    m: Map<(usize, usize), Seq<PlayerData>>,
    s: Seq<PlayerData>,
    n: nat,
) -> Map<(usize, usize), Seq<PlayerData>>
    decreases n,
{
    if n == 0 {
        m
    } else {
        populated(
            crate::router::emptied(squares_after(m, s, (n - 1) as nat)),
            players_after(s, n),
        )
    }
}

/// Where player `i` starts on an axis.
fn start_of(i: usize, factor: u32) -> (x: Single)
    requires
        factor < 0x100,
    ensures
        x == start(i as int, factor as int),
        on_map(x),
{
    let index = Single::from_whole(i as u64);
    let product = index.times_whole(factor);
    proof {
        lemma_start_is_finite(i as int, factor as int);
        crate::single::lemma_p2_pos(149);
        vstd::arithmetic::div_mod::lemma_mod_bound(
            product.units(),
            MAP_SIZE * crate::single::one(),
        );
    }
    product.rem_whole(MAP_SIZE)
}

pub proof fn lemma_start_is_finite(i: int, factor: int)
    requires
        0 <= i <= u64::MAX,
        0 <= factor < 0x100,
    ensures
        crate::single::rounded(
            crate::single::mag(crate::single::rounded(i * crate::single::one(), 1)) * factor,
            1,
        ) < crate::single::INFINITE,
{
    let index = crate::single::rounded(i * crate::single::one(), 1);
    crate::arith::lemma_whole_is_finite(i);
    crate::single::lemma_mag_nonneg(index);
    let v = crate::single::mag(index) * factor;
    let o = crate::single::one();
    let top = 0x100_0000_0000_0000_0000 * o;
    crate::single::lemma_p2_pos(149);
    vstd::arithmetic::power2::lemma2_to64();
    vstd::arithmetic::power2::lemma2_to64_rest();
    crate::single::lemma_p2_add(64, 8);
    assert(crate::single::p2(72) == 0x100_0000_0000_0000_0000) by (nonlinear_arith)
        requires
            crate::single::p2(72) == crate::single::p2(64) * crate::single::p2(8),
            crate::single::p2(64) == 0x1_0000_0000_0000_0000,
            crate::single::p2(8) == 0x100,
    ;
    crate::single::lemma_p2_add(72, 149);
    crate::single::lemma_p2_add(23, 198);
    crate::single::lemma_mag_split(198, 0x80_0000);
    let b = 198int * 0x80_0000 + 0x80_0000;
    assert(0 <= v <= top) by (nonlinear_arith)
        requires
            v == crate::single::mag(index) * factor,
            0 <= crate::single::mag(index) <= 0x1_0000_0000_0000_0000 * o,
            0 <= factor <= 0x100,
            0 < o,
            top == 0x100_0000_0000_0000_0000 * o,
    ;
    crate::single::lemma_rounded_exact(b, top, 1);
    crate::single::lemma_rounded_ordered(v, 1, top, 1);
}

/// A coordinate one tick later.
fn onward_of(x: Single) -> (r: Single)
    requires
        on_map(x),
    ensures
        r == onward(x),
        on_map(r),
{
    let step = Single { bits: 0x3F80_0000 };
    proof {
        lemma_one();
        lemma_onward_is_finite(x);
    }
    let moved = x.plus(step);
    proof {
        crate::single::lemma_p2_pos(149);
        vstd::arithmetic::div_mod::lemma_mod_bound(moved.units(), MAP_SIZE * crate::single::one());
    }
    moved.rem_whole(MAP_SIZE)
}

/// The pattern of one.
proof fn lemma_one()
    ensures
        crate::single::mag(0x3F80_0000) == crate::single::one(),
{
    crate::single::lemma_p2_values();
    crate::single::lemma_p2_add(23, 126);
    crate::single::lemma_mag_split(126, 0x80_0000);
}

pub proof fn lemma_onward_is_finite(x: Single)
    requires
        on_map(x),
    ensures
        0 <= crate::single::rounded(x.units() + crate::single::one(), 1) < crate::single::INFINITE,
{
    let o = crate::single::one();
    crate::single::lemma_p2_pos(149);
    crate::single::lemma_mag_nonneg(x.pattern());
    crate::arith::lemma_whole_is_finite(10_000);
    crate::single::lemma_rounded_ordered(x.units() + o, 1, 10_001 * o, 1);
    crate::arith::lemma_whole_is_finite(10_001);
    crate::single::lemma_nearest_exists(x.units() + o, 1);
}

impl Simulation {
    /// A crowd of `player_count` players at their starting points, and squares without players.
    pub fn new(player_count: usize) -> (s: Self)
        ensures
            s.players@ == Seq::new(player_count as nat, |i: int| starter(i)),
            all_on_map(s.players@),
            forall|i: int|
                0 <= i < player_count && i <= u32::MAX ==> (#[trigger] s.players@[i]).id == i,
            s.router@ == Map::<(usize, usize), Seq<PlayerData>>::empty(),
    {
        let mut players: Vec<PlayerData> = Vec::new();
        let mut i: usize = 0;
        while i < player_count
            invariant
                i <= player_count,
                players@ =~= Seq::new(i as nat, |j: int| starter(j)),
                all_on_map(players@),
            decreases player_count - i,
        {
            let p = PlayerData { id: i as u32, x: start_of(i, 13), y: start_of(i, 17) };
            players.push(p);
            i = i + 1;
        }
        Simulation { players, router: Router::new() }
    }

    /// One tick: empties the squares, moves every player and puts it into its square, then gathers
    /// the stream of every player.
    pub fn tick(&mut self) -> (streams: Vec<StreamBuffer>)
        requires
            all_on_map(old(self).players@),
        ensures
            final(self).players@ == all_walked(old(self).players@),
            all_on_map(final(self).players@),
            final(self).router@ == populated(
                crate::router::emptied(old(self).router@),
                final(self).players@,
            ),
            streams@.len() == final(self).players@.len(),
            forall|i: int|
                0 <= i < streams@.len() ==> crate::router::streamed(
                    final(self).router@,
                    final(self).players@[i],
                    #[trigger] streams@[i],
                ),
    {
        let ghost crowd = self.players@;
        let ghost target = all_walked(crowd);
        self.router.flush();
        let ghost squares = self.router@;
        let mut i: usize = 0;
        while i < self.players.len()
            invariant
                i <= self.players@.len(),
                self.players@.len() == crowd.len(),
                all_on_map(crowd),
                target == all_walked(crowd),
                forall|j: int| 0 <= j < i ==> #[trigger] self.players@[j] == target[j],
                forall|j: int| i <= j < crowd.len() ==> #[trigger] self.players@[j] == crowd[j],
                forall|j: int|
                    0 <= j < i ==> on_map((#[trigger] self.players@[j]).x) && on_map(
                        self.players@[j].y,
                    ),
                self.router@ == populated(squares, target.take(i as int)),
            decreases self.players@.len() - i,
        {
            let p = self.players[i];
            assert(p == crowd[i as int]);
            let q = PlayerData { id: p.id, x: onward_of(p.x), y: onward_of(p.y) };
            self.players[i] = q;
            self.router.update_player_location(q);
            proof {
                let next = target.take(i + 1);
                assert(next.drop_last() =~= target.take(i as int));
                assert(next.last() == q);
            }
            i = i + 1;
        }
        assert(self.players@ =~= target);
        assert(target.take(i as int) =~= target);
        self.router.stream_all(&self.players)
    }

    /// One second of ticks.
    pub fn run(&mut self)
        requires
            all_on_map(old(self).players@),
        ensures
            final(self).players@ == players_after(old(self).players@, TARGET_TPS as nat),
            all_on_map(final(self).players@),
            final(self).router@ == squares_after(
                old(self).router@,
                old(self).players@,
                TARGET_TPS as nat,
            ),
    {
        let ghost crowd = self.players@;
        let ghost squares = self.router@;
        let mut t: usize = 0;
        while t < TARGET_TPS
            invariant
                t <= TARGET_TPS,
                all_on_map(self.players@),
                self.players@ == players_after(crowd, t as nat),
                self.router@ == squares_after(squares, crowd, t as nat),
            decreases TARGET_TPS - t,
        {
            let _ = self.tick();
            t = t + 1;
        }
    }
}

/// Whether a round that took `elapsed` nanoseconds met its time.
pub fn in_time(elapsed: u64) -> (r: bool)
    ensures
        r == (elapsed <= ROUND_TIME),
{
    elapsed <= ROUND_TIME
}

/// The size of the next crowd: larger after a round that met its time, none after one that did
/// not.
pub fn next_crowd(crowd: usize, in_time: bool) -> (next: Option<usize>)
    requires
        in_time ==> crowd + CROWD_STEP <= usize::MAX,
    ensures
        next == (if in_time {
            Some((crowd + CROWD_STEP) as usize)
        } else {
            None
        }),
{
    if in_time {
        Some(crowd + CROWD_STEP)
    } else {
        None
    }
}

/// How many players are moved in one round.
pub fn moves_per_round(crowd: usize) -> (n: usize)
    requires
        crowd * TARGET_TPS <= usize::MAX,
    ensures
        n == crowd * TARGET_TPS,
{
    crowd * TARGET_TPS
}

} // verus!
