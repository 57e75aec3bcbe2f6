//! The map as squares, and the way from a position to the squares around it.
use crate::buffer::{PlayerData, StreamBuffer, MAX_STREAM};
use crate::grid::GridNode;
use crate::single::Single;
use rayon::iter::{IntoParallelRefIterator, IntoParallelRefMutIterator, ParallelIterator};
use std::collections::HashMap;
use vstd::prelude::*;

verus! {

/// The side of a square.
pub const CELL_SIZE: u32 = 50;

/// How far a player sees on each axis: the pattern of 50.
pub const VIEW_RADIUS: u32 = 0x4248_0000;

/// The squares that hold, or once held, players.
pub struct Router {
    grids: HashMap<u128, GridNode>,
}

/// The number under which a square is stored.
spec fn key_of(c: (usize, usize)) -> u128 {
    (c.0 * 0x1_0000_0000_0000_0000 + c.1) as u128
}

/// The square that a position lies in.
pub open spec fn cell_of(x: Single, y: Single) -> (usize, usize) {
    (
        crate::arith::quotient(x, CELL_SIZE as int) as usize,
        crate::arith::quotient(y, CELL_SIZE as int) as usize,
    )
}

/// The players of a square; a square that is not stored has none.
pub open spec fn at(m: Map<(usize, usize), Seq<PlayerData>>, c: (usize, usize)) -> Seq<PlayerData> {
    if m.contains_key(c) {
        m[c]
    } else {
        Seq::empty()
    }
}

/// The squares after a player has been put into its own.
pub open spec fn placed(
    m: Map<(usize, usize), Seq<PlayerData>>,
    p: PlayerData,
) -> Map<(usize, usize), Seq<PlayerData>> {
    let c = cell_of(p.x, p.y);
    m.insert(c, at(m, c).push(p))
}

/// The squares after all players have been taken out of them.
pub open spec fn emptied(m: Map<(usize, usize), Seq<PlayerData>>) -> Map<
    (usize, usize),
    Seq<PlayerData>,
> {
    m.map_values(|s: Seq<PlayerData>| Seq::empty())
}

/// Each player is in the square that its position belongs to.
pub open spec fn in_order(m: Map<(usize, usize), Seq<PlayerData>>) -> bool {
    forall|c: (usize, usize), i: int|
        #![trigger m[c][i]]
        m.contains_key(c) && 0 <= i < m[c].len() ==> cell_of(m[c][i].x, m[c][i].y) == c
}

/// Those that a player sees in one square.
pub open spec fn cell_sights(
    m: Map<(usize, usize), Seq<PlayerData>>,
    p: PlayerData,
    c: (usize, usize),
) -> Seq<PlayerData> {
    crate::grid::sights(at(m, c), p.x, p.y, Single { bits: VIEW_RADIUS }, p.id)
}

/// Those that a player sees in the squares of a row, from column `lo` to column `hi`.
pub open spec fn row_sights(
    m: Map<(usize, usize), Seq<PlayerData>>,
    p: PlayerData,
    lo: int,
    hi: int,
    row: int,
) -> Seq<PlayerData>
    decreases hi - lo + 1,
{
    if hi < lo {
        Seq::empty()
    } else {
        row_sights(m, p, lo, hi - 1, row) + cell_sights(m, p, (hi as usize, row as usize))
    }
}

/// Those that a player sees in the rows from `top` to `bottom`.
pub open spec fn block_sights(
    m: Map<(usize, usize), Seq<PlayerData>>,
    p: PlayerData,
    lo: int,
    hi: int,
    top: int,
    bottom: int,
) -> Seq<PlayerData>
    decreases bottom - top + 1,
{
    if bottom < top {
        Seq::empty()
    } else {
        block_sights(m, p, lo, hi, top, bottom - 1) + row_sights(m, p, lo, hi, bottom)
    }
}

/// The square before, as far as there is one.
pub open spec fn before(c: usize) -> int {
    if c == 0 {
        0
    } else {
        c - 1
    }
}

/// The square after, as far as there is one.
pub open spec fn after(c: usize) -> int {
    if c == usize::MAX {
        c as int
    } else {
        c + 1
    }
}

/// Those that a player sees in its own square and the squares that touch it, row by row.
pub open spec fn surroundings(
    m: Map<(usize, usize), Seq<PlayerData>>,
    p: PlayerData,
) -> Seq<PlayerData> {
    let c = cell_of(p.x, p.y);
    block_sights(m, p, before(c.0), after(c.0), before(c.1), after(c.1))
}

proof fn lemma_key(c: (usize, usize), d: (usize, usize))
    ensures
        key_of(c) == key_of(d) ==> c == d,
        key_of(c) == c.0 * 0x1_0000_0000_0000_0000 + c.1,
{
}

fn key(cx: usize, cy: usize) -> (k: u128)
    ensures
        k == key_of((cx, cy)),
{
    cx as u128 * 0x1_0000_0000_0000_0000 + cy as u128
}

/// The buffer is what a player is told: those that it sees in its own square and in those that
/// touch it, cut to the length of a stream, and blank slots behind them.
pub open spec fn streamed(
    m: Map<(usize, usize), Seq<PlayerData>>,
    p: PlayerData,
    buf: StreamBuffer,
) -> bool {
    &&& buf@ == crate::buffer::capped(surroundings(m, p))
    &&& buf.blank_behind()
}

/// Empties every square with rayon's `par_iter_mut` and `for_each`: `for_each` runs its closure
/// once on each entry of the map, here `GridNode::clear` on the value. So the map keeps its keys,
/// and each value is what `clear` leaves.
#[verifier::external_body]
fn clear_each(grids: &mut HashMap<u128, GridNode>)
    ensures
        final(grids)@.dom() == old(grids)@.dom(),
        forall|k: u128|
            #![trigger final(grids)@[k]]
            final(grids)@.contains_key(k) ==> final(grids)@[k]@ == Seq::<PlayerData>::empty(),
{
    grids.par_iter_mut().for_each(|(_, g)| g.clear());
}

/// Gathers all streams with rayon's `par_iter`, `map` and `collect`: `map` runs its closure once
/// on each player, here `Router::stream_data_for`, and `collect` puts the results into a vector in
/// the order of the players.
#[verifier::external_body]
fn stream_each(router: &Router, players: &Vec<PlayerData>) -> (streams: Vec<StreamBuffer>)
    ensures
        streams@.len() == players@.len(),
        forall|i: int|
            0 <= i < players@.len() ==> streamed(router@, players@[i], #[trigger] streams@[i]),
{
    players.par_iter().map(|p| router.stream_data_for(p)).collect()
}

impl View for Router {
    type V = Map<(usize, usize), Seq<PlayerData>>;

    closed spec fn view(&self) -> Map<(usize, usize), Seq<PlayerData>> {
        Map::new(
            |c: (usize, usize)| self.grids@.contains_key(key_of(c)),
            |c: (usize, usize)| self.grids@[key_of(c)]@,
        )
    }
}

impl Router {
    /// A map without players.
    pub fn new() -> (r: Self)
        ensures
            r@ == Map::<(usize, usize), Seq<PlayerData>>::empty(),
    {
        let r = Router { grids: HashMap::new() };
        assert(r@ =~= Map::empty());
        r
    }

    /// The square that a position lies in.
    pub fn get_grid_coord(&self, x: Single, y: Single) -> (c: (usize, usize))
        ensures
            c == cell_of(x, y),
    {
        (x.div_whole(CELL_SIZE), y.div_whole(CELL_SIZE))
    }

    /// Puts a player into the square that it stands in.
    pub fn update_player_location(&mut self, player: PlayerData)
        ensures
            final(self)@ == placed(old(self)@, player),
    {
        broadcast use vstd::std_specs::hash::group_hash_axioms;

        let (cx, cy) = self.get_grid_coord(player.x, player.y);
        let k = key(cx, cy);
        let ghost m = self@;
        self.grids.entry(k).or_insert(GridNode::new()).insert(player);
        proof {
            assert forall|c: (usize, usize)| key_of(c) == k implies c == (cx, cy) by {
                lemma_key(c, (cx, cy));
            }
            assert(self@ =~= placed(m, player));
        }
    }

    /// Takes all players out of their squares.
    pub fn flush(&mut self)
        ensures
            final(self)@ == emptied(old(self)@),
    {
        let ghost m = self@;
        clear_each(&mut self.grids);
        assert(self@ =~= emptied(m));
    }

    /// What a player is told: those that it sees in its own square and in those that touch it, cut
    /// to the length of a stream. The slots behind them stay blank.
    pub fn stream_data_for(&self, player: &PlayerData) -> (buf: StreamBuffer)
        ensures
            streamed(self@, *player, buf),
    {
        broadcast use vstd::std_specs::hash::group_hash_axioms;

        let mut buf = StreamBuffer::new();
        let (cx, cy) = self.get_grid_coord(player.x, player.y);
        let min_x = cx.saturating_sub(1);
        let max_x = cx.saturating_add(1);
        let min_y = cy.saturating_sub(1);
        let max_y = cy.saturating_add(1);
        let view_range = Single { bits: VIEW_RADIUS };
        let ghost m = self@;
        let ghost p = *player;
        let ghost (lo, hi) = (min_x as int, max_x as int);
        let ghost c = cell_of(p.x, p.y);
        let mut ny: usize = min_y;
        loop
            invariant_except_break
                buf@ == crate::buffer::capped(block_sights(m, p, lo, hi, min_y as int, ny - 1)),
            invariant
                buf.blank_behind(),
                min_x <= max_x,
                min_y <= ny <= max_y,
                m == self@,
                p == *player,
                c == cell_of(p.x, p.y),
                lo == min_x == before(c.0),
                hi == max_x == after(c.0),
                min_y == before(c.1),
                max_y == after(c.1),
                view_range == (Single { bits: VIEW_RADIUS }),
            ensures
                buf@ == crate::buffer::capped(
                    block_sights(m, p, lo, hi, min_y as int, max_y as int),
                ),
            decreases max_y - ny,
        {
            let ghost rows = block_sights(m, p, lo, hi, min_y as int, ny - 1);
            let mut nx: usize = min_x;
            assert(rows + row_sights(m, p, lo, lo - 1, ny as int) =~= rows);
            loop
                invariant_except_break
                    buf@ == crate::buffer::capped(rows + row_sights(m, p, lo, nx - 1, ny as int)),
                invariant
                    buf.blank_behind(),
                    min_x <= nx <= max_x,
                    min_y <= ny <= max_y,
                    m == self@,
                    p == *player,
                    c == cell_of(p.x, p.y),
                    lo == min_x == before(c.0),
                    hi == max_x == after(c.0),
                    min_y == before(c.1),
                    max_y == after(c.1),
                    view_range == (Single { bits: VIEW_RADIUS }),
                    rows == block_sights(m, p, lo, hi, min_y as int, ny - 1),
                ensures
                    buf@ == crate::buffer::capped(rows + row_sights(m, p, lo, hi, ny as int)),
                decreases max_x - nx,
            {
                let ghost seen = rows + row_sights(m, p, lo, nx - 1, ny as int);
                let ghost here = cell_sights(m, p, (nx, ny));
                proof {
                    assert(rows + row_sights(m, p, lo, nx as int, ny as int) =~= seen + here);
                    crate::buffer::lemma_capped_twice(seen, here);
                }
                match self.grids.get(&key(nx, ny)) {
                    Some(grid_node) => {
                        grid_node.query_neighbors(
                            player.x,
                            player.y,
                            view_range,
                            player.id,
                            &mut buf,
                        );
                        if buf.len() >= MAX_STREAM {
                            proof {
                                let all = block_sights(m, p, lo, hi, min_y as int, max_y as int);
                                lemma_row_grows(m, p, lo, nx as int, hi, ny as int);
                                lemma_block_grows(
                                    m,
                                    p,
                                    lo,
                                    hi,
                                    min_y as int,
                                    ny as int,
                                    max_y as int,
                                );
                                assert((seen + here).is_prefix_of(all));
                                crate::buffer::lemma_capped_prefix(seen + here, all);
                            }
                            return buf;
                        }
                    },
                    None => {
                        assert(here =~= Seq::<PlayerData>::empty()) by {
                            reveal(Seq::filter);
                        }
                        assert(seen + here =~= seen);
                    },
                }
                if nx == max_x {
                    break ;
                }
                nx = nx + 1;
            }
            if ny == max_y {
                break ;
            }
            ny = ny + 1;
        }
        buf
    }

    /// The streams of all players of a list, in its order.
    pub fn stream_all(&self, players: &Vec<PlayerData>) -> (streams: Vec<StreamBuffer>)
        ensures
            streams@.len() == players@.len(),
            forall|i: int|
                0 <= i < players@.len() ==> streamed(self@, players@[i], #[trigger] streams@[i]),
    {
        stream_each(self, players)
    }
}

/// A row seen up to one column is the beginning of the row seen up to a later one.
proof fn lemma_row_grows(
    m: Map<(usize, usize), Seq<PlayerData>>,
    p: PlayerData,
    lo: int,
    mid: int,
    hi: int,
    row: int,
)
    requires
        lo <= mid <= hi,
    ensures
        row_sights(m, p, lo, mid, row).is_prefix_of(row_sights(m, p, lo, hi, row)),
    decreases hi - mid,
{
    if mid < hi {
        lemma_row_grows(m, p, lo, mid, hi - 1, row);
    }
}

/// Rows seen down to one are the beginning of the rows seen down to a later one.
proof fn lemma_block_grows(
    m: Map<(usize, usize), Seq<PlayerData>>,
    p: PlayerData,
    lo: int,
    hi: int,
    top: int,
    mid: int,
    bottom: int,
)
    requires
        top <= mid <= bottom,
    ensures
        block_sights(m, p, lo, hi, top, mid).is_prefix_of(
            block_sights(m, p, lo, hi, top, bottom),
        ),
    decreases bottom - mid,
{
    if mid < bottom {
        lemma_block_grows(m, p, lo, hi, top, mid, bottom - 1);
    }
}

} // verus!
