//! One square of the map and the players in it.
use crate::buffer::{PlayerData, StreamBuffer, MAX_STREAM};
use crate::single::Single;
use vstd::prelude::*;

verus! {

/// The players of one square, in the order in which they came.
pub struct GridNode {
    players: Vec<PlayerData>,
}

/// The player `p` is not `exclude_id`, and lies within `view_range` of the centre on both axes.
pub open spec fn sees(
    center_x: Single,
    center_y: Single,
    view_range: Single,
    exclude_id: u32,
    p: PlayerData,
) -> bool {
    &&& p.id != exclude_id
    &&& crate::arith::is_near(p.x, center_x, view_range)
    &&& crate::arith::is_near(p.y, center_y, view_range)
}

/// Those of a list that are seen from the centre, in their order.
pub open spec fn sights(
    players: Seq<PlayerData>,
    center_x: Single,
    center_y: Single,
    view_range: Single,
    exclude_id: u32,
) -> Seq<PlayerData> {
    players.filter(|p: PlayerData| sees(center_x, center_y, view_range, exclude_id, p))
}

/// The buffer `after` is what a query of `players` leaves of `before`: behind its list stand those
/// that are seen, as far as there is room, and no other slot has changed.
pub open spec fn gathered(
    before: StreamBuffer,
    players: Seq<PlayerData>,
    center_x: Single,
    center_y: Single,
    view_range: Single,
    exclude_id: u32,
    after: StreamBuffer,
) -> bool {
    &&& after@ == crate::buffer::capped(
        before@ + sights(players, center_x, center_y, view_range, exclude_id),
    )
    &&& after.in_place()
    &&& forall|j: int|
        0 <= j < MAX_STREAM && !(before@.len() <= j < after@.len())
            ==> #[trigger] after.slots()[j] == before.slots()[j]
}

impl View for GridNode {
    type V = Seq<PlayerData>;

    closed spec fn view(&self) -> Seq<PlayerData> {
        self.players@
    }
}

impl GridNode {
    /// A square without players.
    pub fn new() -> (g: Self)
        ensures
            g@ == Seq::<PlayerData>::empty(),
    {
        GridNode { players: Vec::new() }
    }

    /// Puts a player behind those that are there.
    pub fn insert(&mut self, player: PlayerData)
        ensures
            final(self)@ == old(self)@.push(player),
    {
        self.players.push(player);
    }

    /// Removes all players.
    pub fn clear(&mut self)
        ensures
            final(self)@ == Seq::<PlayerData>::empty(),
    {
        self.players.clear();
    }

    /// Appends to `buf`, as far as there is room, the players of this square that are seen from
    /// the centre.
    pub fn query_neighbors(
        &self,
        center_x: Single,
        center_y: Single,
        view_range: Single,
        exclude_id: u32,
        buf: &mut StreamBuffer,
    )
        ensures
            gathered(
                *old(buf),
                self@,
                center_x,
                center_y,
                view_range,
                exclude_id,
                *final(buf),
            ),
    {
        let ghost start = buf@;
        let ghost pred = |p: PlayerData| sees(center_x, center_y, view_range, exclude_id, p);
        if buf.len() == MAX_STREAM {
            proof {
                crate::buffer::lemma_capped_full(start, self@.filter(pred));
            }
            return ;
        }
        let mut i: usize = 0;
        proof {
            reveal(Seq::filter);
            assert(self.players@.take(0).filter(pred) =~= Seq::<PlayerData>::empty());
            assert(start + Seq::<PlayerData>::empty() =~= start);
        }
        while i < self.players.len()
            invariant
                i <= self.players@.len(),
                start == old(buf)@,
                pred == (|p: PlayerData| sees(center_x, center_y, view_range, exclude_id, p)),
                buf.in_place(),
                start.len() <= buf@.len(),
                forall|j: int|
                    0 <= j < MAX_STREAM && !(start.len() <= j < buf@.len())
                        ==> #[trigger] buf.slots()[j] == old(buf).slots()[j],
                buf@ == crate::buffer::capped(start + self.players@.take(i as int).filter(pred)),
            decreases self.players@.len() - i,
        {
            let p = self.players[i];
            let ghost seen = self.players@.take(i as int).filter(pred);
            let ghost next = self.players@.take(i + 1);
            proof {
                reveal(Seq::filter);
                assert(next.drop_last() =~= self.players@.take(i as int));
                assert(next.last() == p);
                assert(next.filter(pred) == if pred(p) {
                    seen.push(p)
                } else {
                    seen
                });
            }
            if p.id != exclude_id && p.x.near(center_x, view_range) && p.y.near(
                center_y,
                view_range,
            ) {
                assert((start + seen).push(p) =~= start + seen.push(p));
                if !buf.push(p) {
                    proof {
                        let rest = self.players@.skip(i as int);
                        assert(self.players@ =~= self.players@.take(i as int) + rest);
                        Seq::filter_distributes_over_add(
                            self.players@.take(i as int),
                            rest,
                            pred,
                        );
                        assert(start + (seen + rest.filter(pred)) =~= (start + seen)
                            + rest.filter(pred));
                        crate::buffer::lemma_capped_full(start + seen, rest.filter(pred));
                    }
                    return ;
                }
            }
            i = i + 1;
        }
        assert(self.players@.take(i as int) =~= self.players@);
    }
}

} // verus!
