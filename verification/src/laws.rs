//! Laws of the crowd: what a stream holds, whatever the squares are, and how the crowd moves.
use crate::buffer::{PlayerData, StreamBuffer, MAX_STREAM};
use crate::router::VIEW_RADIUS;
use crate::simulation::MAP_SIZE;
use crate::single::Single;
use vstd::prelude::*;

verus! {

/// How many times `q` occurs in a list.
pub open spec fn times(s: Seq<PlayerData>, q: PlayerData) -> int
    decreases s.len(),
{
    if s.len() == 0 {
        0
    } else if s.last() == q {
        times(s.drop_last(), q) + 1
    } else {
        times(s.drop_last(), q)
    }
}

/// The player `p` sees `q`: another one, within the view radius on both axes.
pub open spec fn sees(p: PlayerData, q: PlayerData) -> bool {
    crate::grid::sees(p.x, p.y, Single { bits: VIEW_RADIUS }, p.id, q)
}

proof fn lemma_times_concat(s: Seq<PlayerData>, t: Seq<PlayerData>, q: PlayerData)
    ensures
        times(s + t, q) == times(s, q) + times(t, q),
    decreases t.len(),
{
    if t.len() == 0 {
        assert(s + t =~= s);
    } else {
        assert((s + t).drop_last() =~= s + t.drop_last());
        lemma_times_concat(s, t.drop_last(), q);
    }
}

proof fn lemma_times_nonneg(s: Seq<PlayerData>, q: PlayerData)
    ensures
        times(s, q) >= 0,
        (times(s, q) > 0) == s.contains(q),
    decreases s.len(),
{
    if s.len() > 0 {
        let t = s.drop_last();
        lemma_times_nonneg(t, q);
        if t.contains(q) {
            let i = choose|i: int| 0 <= i < t.len() && t[i] == q;
            assert(s[i] == q);
        }
        if s.contains(q) && s.last() != q {
            let i = choose|i: int| 0 <= i < s.len() && s[i] == q;
            assert(t[i] == q);
        }
        if s.last() == q {
            assert(s[s.len() - 1] == q);
        }
    }
}

proof fn lemma_times_sights(
    s: Seq<PlayerData>,
    x: Single,
    y: Single,
    r: Single,
    id: u32,
    q: PlayerData,
)
    ensures
        times(crate::grid::sights(s, x, y, r, id), q) == if crate::grid::sees(x, y, r, id, q) {
            times(s, q)
        } else {
            0
        },
    decreases s.len(),
{
    reveal(Seq::filter);
    let pred = |p: PlayerData| crate::grid::sees(x, y, r, id, p);
    if s.len() > 0 {
        let t = s.drop_last();
        lemma_times_sights(t, x, y, r, id, q);
        let kept = t.filter(pred);
        assert(kept.push(s.last()).drop_last() =~= kept);
    }
}

proof fn lemma_times_row(
    m: Map<(usize, usize), Seq<PlayerData>>,
    p: PlayerData,
    lo: int,
    hi: int,
    row: int,
    q: PlayerData,
)
    requires
        crate::router::in_order(m),
        0 <= lo,
        hi <= usize::MAX,
        0 <= row <= usize::MAX,
    ensures
        ({
            let c = crate::router::cell_of(q.x, q.y);
            times(crate::router::row_sights(m, p, lo, hi, row), q) == if sees(p, q) && lo <= c.0
                <= hi && c.1 == row {
                times(crate::router::at(m, c), q)
            } else {
                0
            }
        }),
    decreases hi - lo + 1,
{
    if lo <= hi {
        let d = (hi as usize, row as usize);
        let here = crate::router::cell_sights(m, p, d);
        lemma_times_row(m, p, lo, hi - 1, row, q);
        lemma_times_concat(crate::router::row_sights(m, p, lo, hi - 1, row), here, q);
        lemma_times_sights(
            crate::router::at(m, d),
            p.x,
            p.y,
            Single { bits: VIEW_RADIUS },
            p.id,
            q,
        );
        lemma_elsewhere(m, d, q);
    }
}

/// A player is in no square but its own.
proof fn lemma_elsewhere(
    m: Map<(usize, usize), Seq<PlayerData>>,
    d: (usize, usize),
    q: PlayerData,
)
    requires
        crate::router::in_order(m),
    ensures
        d != crate::router::cell_of(q.x, q.y) ==> times(crate::router::at(m, d), q) == 0,
{
    let s = crate::router::at(m, d);
    lemma_times_nonneg(s, q);
    if s.contains(q) {
        let i = choose|i: int| 0 <= i < s.len() && s[i] == q;
        assert(m[d][i] == q);
    }
}

proof fn lemma_times_block(
    m: Map<(usize, usize), Seq<PlayerData>>,
    p: PlayerData,
    lo: int,
    hi: int,
    top: int,
    bottom: int,
    q: PlayerData,
)
    requires
        crate::router::in_order(m),
        0 <= lo,
        hi <= usize::MAX,
        0 <= top,
        bottom <= usize::MAX,
    ensures
        ({
            let c = crate::router::cell_of(q.x, q.y);
            times(crate::router::block_sights(m, p, lo, hi, top, bottom), q) == if sees(p, q) && lo
                <= c.0 <= hi && top <= c.1 <= bottom {
                times(crate::router::at(m, c), q)
            } else {
                0
            }
        }),
    decreases bottom - top + 1,
{
    if top <= bottom {
        lemma_times_block(m, p, lo, hi, top, bottom - 1, q);
        lemma_times_row(m, p, lo, hi, bottom, q);
        lemma_times_concat(
            crate::router::block_sights(m, p, lo, hi, top, bottom - 1),
            crate::router::row_sights(m, p, lo, hi, bottom),
            q,
        );
    }
}

/// Putting players into squares and emptying the squares keeps every player in the square that
/// its position belongs to.
pub proof fn law_in_order(m: Map<(usize, usize), Seq<PlayerData>>, p: PlayerData)
    ensures
        crate::router::in_order(Map::<(usize, usize), Seq<PlayerData>>::empty()),
        crate::router::in_order(m) ==> crate::router::in_order(crate::router::placed(m, p)),
        crate::router::in_order(crate::router::emptied(m)),
{
    let n = crate::router::placed(m, p);
    let c = crate::router::cell_of(p.x, p.y);
    if crate::router::in_order(m) {
        assert forall|d: (usize, usize), i: int|
            #![trigger n[d][i]]
            n.contains_key(d) && 0 <= i < n[d].len() implies crate::router::cell_of(
            n[d][i].x,
            n[d][i].y,
        ) == d by {
            if d == c {
                if i < n[d].len() - 1 {
                    assert(n[d][i] == m[d][i]);
                }
            } else {
                assert(n[d] == m[d]);
                assert(n[d][i] == m[d][i]);
            }
        }
    }
}

/// The squares around a player are enough: in them it finds every player that it sees, as often
/// as that player is on the map, and nobody else.
pub proof fn law_surroundings(
    m: Map<(usize, usize), Seq<PlayerData>>,
    p: PlayerData,
    q: PlayerData,
)
    requires
        crate::router::in_order(m),
    ensures
        times(crate::router::surroundings(m, p), q) == if sees(p, q) {
            times(crate::router::at(m, crate::router::cell_of(q.x, q.y)), q)
        } else {
            0
        },
{
    let c = crate::router::cell_of(p.x, p.y);
    lemma_times_block(
        m,
        p,
        crate::router::before(c.0),
        crate::router::after(c.0),
        crate::router::before(c.1),
        crate::router::after(c.1),
        q,
    );
    lemma_index(p.x);
    lemma_index(p.y);
    lemma_index(q.x);
    lemma_index(q.y);
    if sees(p, q) {
        crate::coverage::law_adjacent(q.x, p.x);
        crate::coverage::law_adjacent(q.y, p.y);
    }
}

/// The number of a square is an index.
proof fn lemma_index(x: Single)
    ensures
        0 <= crate::arith::quotient(x, crate::router::CELL_SIZE as int) <= usize::MAX,
{
    if x.is_finite() && !x.is_negative() {
        let u = crate::single::mag(x.pattern());
        crate::single::lemma_mag_nonneg(x.pattern());
        crate::single::lemma_nearest_exists(u, 50);
        let r = crate::single::rounded(u, 50);
        crate::single::lemma_mag_nonneg(r);
        crate::single::lemma_p2_pos(149);
        vstd::arithmetic::div_mod::lemma_div_pos_is_pos(
            crate::single::mag(r),
            crate::single::one(),
        );
    }
}

/// A stream tells of no more than `MAX_STREAM` players, of none that is not seen, and of none more
/// often than it is there. Where all that are seen fit, it tells of all of them.
pub proof fn law_stream(m: Map<(usize, usize), Seq<PlayerData>>, p: PlayerData, q: PlayerData)
    requires
        crate::router::in_order(m),
    ensures
        ({
            let seen = crate::router::surroundings(m, p);
            let told = crate::buffer::capped(seen);
            let there = times(crate::router::at(m, crate::router::cell_of(q.x, q.y)), q);
            &&& told.len() <= MAX_STREAM
            &&& told.contains(q) ==> sees(p, q)
            &&& 0 <= times(told, q) <= there
            &&& seen.len() <= MAX_STREAM && sees(p, q) ==> times(told, q) == there
            &&& seen.len() > MAX_STREAM ==> told.len() == MAX_STREAM
        }),
{
    let seen = crate::router::surroundings(m, p);
    let told = crate::buffer::capped(seen);
    law_surroundings(m, p, q);
    let rest = seen.skip(told.len() as int);
    assert(seen =~= told + rest);
    lemma_times_concat(told, rest, q);
    lemma_times_nonneg(told, q);
    lemma_times_nonneg(rest, q);
    lemma_times_nonneg(crate::router::at(m, crate::router::cell_of(q.x, q.y)), q);
}

/// Nobody is told of anybody after the squares have been emptied.
pub proof fn law_emptied(m: Map<(usize, usize), Seq<PlayerData>>, p: PlayerData)
    ensures
        crate::router::surroundings(crate::router::emptied(m), p) == Seq::<PlayerData>::empty(),
{
    let n = crate::router::emptied(m);
    let s = crate::router::surroundings(n, p);
    law_in_order(m, p);
    if s.len() > 0 {
        let q = s[0];
        law_surroundings(n, p, q);
        lemma_times_nonneg(s, q);
        assert(s.contains(q));
    }
}

/// After a tick each player of the crowd is in the square that its position belongs to, as often
/// as it is in the crowd, and nobody else is in any square.
pub proof fn law_populated(
    m: Map<(usize, usize), Seq<PlayerData>>,
    s: Seq<PlayerData>,
    c: (usize, usize),
    q: PlayerData,
)
    ensures
        ({
            let n = crate::simulation::populated(crate::router::emptied(m), s);
            &&& crate::router::in_order(n)
            &&& times(crate::router::at(n, c), q) == if crate::router::cell_of(q.x, q.y) == c {
                times(s, q)
            } else {
                0
            }
        }),
    decreases s.len(),
{
    let e = crate::router::emptied(m);
    if s.len() == 0 {
        law_in_order(m, q);
    } else {
        let n = crate::simulation::populated(e, s.drop_last());
        law_populated(m, s.drop_last(), c, q);
        law_in_order(n, s.last());
        let d = crate::router::cell_of(s.last().x, s.last().y);
        let before = crate::router::at(n, d);
        assert(before.push(s.last()).drop_last() =~= before);
    }
}

/// The squares do not show in what the players are told: after a tick the surroundings of a player
/// hold exactly those of the crowd that it sees.
pub proof fn law_tick(
    m: Map<(usize, usize), Seq<PlayerData>>,
    s: Seq<PlayerData>,
    p: PlayerData,
    q: PlayerData,
)
    ensures
        times(
            crate::router::surroundings(
                crate::simulation::populated(crate::router::emptied(m), s),
                p,
            ),
            q,
        ) == if sees(p, q) {
            times(s, q)
        } else {
            0
        },
{
    let n = crate::simulation::populated(crate::router::emptied(m), s);
    law_populated(m, s, crate::router::cell_of(q.x, q.y), q);
    law_surroundings(n, p, q);
}

/// Where nobody is seen, a query leaves the buffer as it was. Nobody is seen where the range is
/// negative or no number, where the centre has a coordinate that is no number, and where each
/// player is excluded or has such a coordinate.
pub proof fn law_nobody_seen(
    before: StreamBuffer,
    players: Seq<PlayerData>,
    x: Single,
    y: Single,
    r: Single,
    id: u32,
    after: StreamBuffer,
)
    requires
        before.in_place(),
        crate::grid::gathered(before, players, x, y, r, id, after),
    ensures
        (forall|i: int|
            0 <= i < players.len() ==> !crate::grid::sees(x, y, r, id, #[trigger] players[i]))
            ==> after == before,
        r.is_nan() || (r.is_negative() && r.pattern() != 0) || x.is_nan() || y.is_nan() ==> after
            == before,
        (forall|i: int|
            0 <= i < players.len() ==> (#[trigger] players[i]).id == id || players[i].x.is_nan()
                || players[i].y.is_nan()) ==> after == before,
{
    if forall|i: int|
        0 <= i < players.len() ==> !crate::grid::sees(x, y, r, id, #[trigger] players[i]) {
        lemma_no_sights(players, x, y, r, id);
        assert(before@ + Seq::<PlayerData>::empty() =~= before@);
        assert(after@ == before@);
        assert(after.slots() =~= before.slots());
        crate::buffer::lemma_same(after, before);
    }
}

proof fn lemma_no_sights(s: Seq<PlayerData>, x: Single, y: Single, r: Single, id: u32)
    requires
        forall|i: int| 0 <= i < s.len() ==> !crate::grid::sees(x, y, r, id, #[trigger] s[i]),
    ensures
        crate::grid::sights(s, x, y, r, id) == Seq::<PlayerData>::empty(),
    decreases s.len(),
{
    reveal(Seq::filter);
    if s.len() > 0 {
        let t = s.drop_last();
        assert forall|i: int| 0 <= i < t.len() implies !crate::grid::sees(
            x,
            y,
            r,
            id,
            #[trigger] t[i],
        ) by {
            assert(t[i] == s[i]);
        }
        lemma_no_sights(t, x, y, r, id);
        assert(s[s.len() - 1] == s.last());
    }
}

/// A query of an emptied square leaves the buffer as it was.
pub proof fn law_cleared(
    before: StreamBuffer,
    x: Single,
    y: Single,
    r: Single,
    id: u32,
    after: StreamBuffer,
)
    requires
        before.in_place(),
        crate::grid::gathered(before, Seq::empty(), x, y, r, id, after),
    ensures
        after == before,
{
    law_nobody_seen(before, Seq::empty(), x, y, r, id, after);
}

/// Querying the players `s` followed by `t` leaves the same buffer as querying `s` and then `t`,
/// also where the buffer fills up on the way.
pub proof fn law_query_in_parts(
    start: StreamBuffer,
    s: Seq<PlayerData>,
    t: Seq<PlayerData>,
    x: Single,
    y: Single,
    r: Single,
    id: u32,
    at_once: StreamBuffer,
    halfway: StreamBuffer,
    in_parts: StreamBuffer,
)
    requires
        start.in_place(),
        crate::grid::gathered(start, s + t, x, y, r, id, at_once),
        crate::grid::gathered(start, s, x, y, r, id, halfway),
        crate::grid::gathered(halfway, t, x, y, r, id, in_parts),
    ensures
        at_once == in_parts,
{
    let pred = |p: PlayerData| crate::grid::sees(x, y, r, id, p);
    Seq::filter_distributes_over_add(s, t, pred);
    let (a, b) = (s.filter(pred), t.filter(pred));
    assert(start@ + (a + b) =~= (start@ + a) + b);
    crate::buffer::lemma_capped_twice(start@ + a, b);
    assert(at_once@ == in_parts@);
    assert forall|j: int| 0 <= j < MAX_STREAM implies at_once.slots()[j]
        == in_parts.slots()[j] by {
        if j < at_once@.len() {
            assert(at_once@[j] == at_once.slots()[j]);
            assert(in_parts@[j] == in_parts.slots()[j]);
        } else {
            assert(in_parts.slots()[j] == halfway.slots()[j]);
            assert(halfway.slots()[j] == start.slots()[j]);
        }
    }
    assert(at_once.slots() =~= in_parts.slots());
    crate::buffer::lemma_same(at_once, in_parts);
}

/// What a player is told depends on the squares alone, not on where they come from.
proof fn lemma_same_squares(
    m: Map<(usize, usize), Seq<PlayerData>>,
    n: Map<(usize, usize), Seq<PlayerData>>,
    p: PlayerData,
    lo: int,
    hi: int,
    top: int,
    bottom: int,
)
    requires
        forall|c: (usize, usize)|
            #[trigger] crate::router::at(m, c) == crate::router::at(n, c),
    ensures
        crate::router::block_sights(m, p, lo, hi, top, bottom) == crate::router::block_sights(
            n,
            p,
            lo,
            hi,
            top,
            bottom,
        ),
    decreases bottom - top + 1,
{
    if top <= bottom {
        lemma_same_squares(m, n, p, lo, hi, top, bottom - 1);
        lemma_same_row(m, n, p, lo, hi, bottom);
    }
}

proof fn lemma_same_row(
    m: Map<(usize, usize), Seq<PlayerData>>,
    n: Map<(usize, usize), Seq<PlayerData>>,
    p: PlayerData,
    lo: int,
    hi: int,
    row: int,
)
    requires
        forall|c: (usize, usize)|
            #[trigger] crate::router::at(m, c) == crate::router::at(n, c),
    ensures
        crate::router::row_sights(m, p, lo, hi, row) == crate::router::row_sights(
            n,
            p,
            lo,
            hi,
            row,
        ),
    decreases hi - lo + 1,
{
    if lo <= hi {
        lemma_same_row(m, n, p, lo, hi - 1, row);
        let c = (hi as usize, row as usize);
        assert(crate::router::at(m, c) == crate::router::at(n, c));
    }
}

proof fn lemma_populated_alike(
    m: Map<(usize, usize), Seq<PlayerData>>,
    s: Seq<PlayerData>,
    c: (usize, usize),
)
    ensures
        crate::router::at(
            crate::simulation::populated(crate::router::emptied(m), s),
            c,
        ) == crate::router::at(
            crate::simulation::populated(Map::<(usize, usize), Seq<PlayerData>>::empty(), s),
            c,
        ),
    decreases s.len(),
{
    if s.len() > 0 {
        lemma_populated_alike(m, s.drop_last(), c);
    }
}

/// Nothing of the ticks before a flush is ever streamed: after the same updates, squares that have
/// been emptied give every player the same buffer as new ones. Without an update that is an empty
/// one.
pub proof fn law_flushed(
    m: Map<(usize, usize), Seq<PlayerData>>,
    updates: Seq<PlayerData>,
    p: PlayerData,
    flushed: StreamBuffer,
    fresh: StreamBuffer,
)
    requires
        crate::router::streamed(
            crate::simulation::populated(crate::router::emptied(m), updates),
            p,
            flushed,
        ),
        crate::router::streamed(
            crate::simulation::populated(
                Map::<(usize, usize), Seq<PlayerData>>::empty(),
                updates,
            ),
            p,
            fresh,
        ),
    ensures
        flushed == fresh,
        updates.len() == 0 ==> flushed@.len() == 0,
{
    let a = crate::simulation::populated(crate::router::emptied(m), updates);
    let b = crate::simulation::populated(
        Map::<(usize, usize), Seq<PlayerData>>::empty(),
        updates,
    );
    assert forall|c: (usize, usize)| #[trigger] crate::router::at(a, c) == crate::router::at(
        b,
        c,
    ) by {
        lemma_populated_alike(m, updates, c);
    }
    let c = crate::router::cell_of(p.x, p.y);
    lemma_same_squares(
        a,
        b,
        p,
        crate::router::before(c.0),
        crate::router::after(c.0),
        crate::router::before(c.1),
        crate::router::after(c.1),
    );
    crate::buffer::lemma_same_list(flushed, fresh);
    law_emptied(m, p);
}

/// The list `b` is the list `a` with `q` put in somewhere.
pub open spec fn one_more(a: Seq<PlayerData>, b: Seq<PlayerData>, q: PlayerData) -> bool {
    exists|i: int| 0 <= i <= a.len() && b == #[trigger] a.insert(i, q)
}

proof fn lemma_cell_placed(
    m: Map<(usize, usize), Seq<PlayerData>>,
    p: PlayerData,
    q: PlayerData,
    c: (usize, usize),
)
    ensures
        crate::router::cell_sights(crate::router::placed(m, q), p, c)
            == if c == crate::router::cell_of(q.x, q.y) && sees(p, q) {
            crate::router::cell_sights(m, p, c).push(q)
        } else {
            crate::router::cell_sights(m, p, c)
        },
{
    if c == crate::router::cell_of(q.x, q.y) {
        reveal(Seq::filter);
        let s = crate::router::at(m, c);
        assert(s.push(q).drop_last() =~= s);
    }
}

proof fn lemma_row_placed(
    m: Map<(usize, usize), Seq<PlayerData>>,
    p: PlayerData,
    q: PlayerData,
    lo: int,
    hi: int,
    row: int,
)
    requires
        0 <= lo,
        hi <= usize::MAX,
        0 <= row <= usize::MAX,
    ensures
        ({
            let c = crate::router::cell_of(q.x, q.y);
            let a = crate::router::row_sights(m, p, lo, hi, row);
            let b = crate::router::row_sights(crate::router::placed(m, q), p, lo, hi, row);
            if sees(p, q) && lo <= c.0 <= hi && c.1 == row {
                one_more(a, b, q)
            } else {
                b == a
            }
        }),
    decreases hi - lo + 1,
{
    if lo <= hi {
        let n = crate::router::placed(m, q);
        let d = (hi as usize, row as usize);
        lemma_row_placed(m, p, q, lo, hi - 1, row);
        lemma_cell_placed(m, p, q, d);
        lemma_one_more(
            crate::router::row_sights(m, p, lo, hi - 1, row),
            crate::router::row_sights(n, p, lo, hi - 1, row),
            crate::router::cell_sights(m, p, d),
            crate::router::cell_sights(n, p, d),
            q,
        );
        let here = crate::router::cell_sights(m, p, d);
        assert(here.push(q) =~= here.insert(here.len() as int, q));
    }
}

/// Putting a player into one of two lists puts it into the two together.
proof fn lemma_one_more(
    a: Seq<PlayerData>,
    b: Seq<PlayerData>,
    c: Seq<PlayerData>,
    d: Seq<PlayerData>,
    q: PlayerData,
)
    ensures
        one_more(a, b, q) ==> one_more(a + c, b + c, q),
        one_more(c, d, q) ==> one_more(a + c, a + d, q),
{
    if one_more(a, b, q) {
        let i = choose|i: int| 0 <= i <= a.len() && b == #[trigger] a.insert(i, q);
        assert(b + c =~= (a + c).insert(i, q));
    }
    if one_more(c, d, q) {
        let i = choose|i: int| 0 <= i <= c.len() && d == #[trigger] c.insert(i, q);
        assert(a + d =~= (a + c).insert(a.len() + i, q));
    }
}

proof fn lemma_block_placed(
    m: Map<(usize, usize), Seq<PlayerData>>,
    p: PlayerData,
    q: PlayerData,
    lo: int,
    hi: int,
    top: int,
    bottom: int,
)
    requires
        0 <= lo,
        hi <= usize::MAX,
        0 <= top,
        bottom <= usize::MAX,
    ensures
        ({
            let c = crate::router::cell_of(q.x, q.y);
            let a = crate::router::block_sights(m, p, lo, hi, top, bottom);
            let b = crate::router::block_sights(
                crate::router::placed(m, q),
                p,
                lo,
                hi,
                top,
                bottom,
            );
            if sees(p, q) && lo <= c.0 <= hi && top <= c.1 <= bottom {
                one_more(a, b, q)
            } else {
                b == a
            }
        }),
    decreases bottom - top + 1,
{
    if top <= bottom {
        let n = crate::router::placed(m, q);
        lemma_block_placed(m, p, q, lo, hi, top, bottom - 1);
        lemma_row_placed(m, p, q, lo, hi, bottom);
        lemma_one_more(
            crate::router::block_sights(m, p, lo, hi, top, bottom - 1),
            crate::router::block_sights(n, p, lo, hi, top, bottom - 1),
            crate::router::row_sights(m, p, lo, hi, bottom),
            crate::router::row_sights(n, p, lo, hi, bottom),
            q,
        );
    }
}

/// One more update changes what a player is told only where the player that came is seen. Then the
/// stream has one more entry, that player among the others in their order, as far as there is room.
/// A full stream stays full.
pub proof fn law_one_more_update(
    m: Map<(usize, usize), Seq<PlayerData>>,
    p: PlayerData,
    q: PlayerData,
    a: StreamBuffer,
    b: StreamBuffer,
)
    requires
        crate::router::streamed(m, p, a),
        crate::router::streamed(crate::router::placed(m, q), p, b),
    ensures
        !sees(p, q) ==> b == a,
        sees(p, q) && a@.len() < MAX_STREAM ==> b@.len() == a@.len() + 1 && one_more(a@, b@, q),
        a@.len() == MAX_STREAM ==> b@.len() == MAX_STREAM,
{
    let c = crate::router::cell_of(p.x, p.y);
    lemma_block_placed(
        m,
        p,
        q,
        crate::router::before(c.0),
        crate::router::after(c.0),
        crate::router::before(c.1),
        crate::router::after(c.1),
    );
    lemma_index(p.x);
    lemma_index(p.y);
    lemma_index(q.x);
    lemma_index(q.y);
    if sees(p, q) {
        crate::coverage::law_adjacent(q.x, p.x);
        crate::coverage::law_adjacent(q.y, p.y);
    } else {
        crate::buffer::lemma_same_list(a, b);
    }
}

/// Who sees whom is a matter of ids and places alone: a player sees every other one that is no
/// further away than 50 on either axis, up to the slack of rounding, whatever its id, and nobody
/// else.
pub proof fn law_sight(p: PlayerData, q: PlayerData)
    requires
        p.x.is_finite(),
        p.y.is_finite(),
        q.x.is_finite(),
        q.y.is_finite(),
    ensures
        sees(p, q) <==> {
            &&& p.id != q.id
            &&& crate::single::abs(q.x.units() - p.x.units()) <= 50 * crate::single::one()
                + crate::coverage::slack()
            &&& crate::single::abs(q.y.units() - p.y.units()) <= 50 * crate::single::one()
                + crate::coverage::slack()
        },
        p.id != q.id ==> (sees(p, q) <==> sees(q, p)),
{
    crate::coverage::law_near(q.x, p.x);
    crate::coverage::law_near(q.y, p.y);
    crate::coverage::law_near(p.x, q.x);
    crate::coverage::law_near(p.y, q.y);
}

/// From a centre every player is seen that has not the excluded id and is no further away than the
/// range on either axis, up to half the way from the range to the next number.
pub proof fn law_sight_in_range(x: Single, y: Single, r: Single, id: u32, q: PlayerData)
    requires
        x.is_finite(),
        y.is_finite(),
        r.is_finite(),
        !r.is_negative(),
        q.x.is_finite(),
        q.y.is_finite(),
    ensures
        ({
            let dx = crate::single::abs(q.x.units() - x.units());
            let dy = crate::single::abs(q.y.units() - y.units());
            let m = crate::single::mag(r.pattern()) + crate::single::mag(r.pattern() + 1);
            let even = r.pattern() % 2 == 0;
            crate::grid::sees(x, y, r, id, q) <==> q.id != id && (2 * dx < m || (2 * dx == m
                && even)) && (2 * dy < m || (2 * dy == m && even))
        }),
{
    crate::coverage::law_near_range(q.x, x, r);
    crate::coverage::law_near_range(q.y, y, r);
}

/// Those that are seen of a list are found one by one, in the order of the list.
pub proof fn law_sights(s: Seq<PlayerData>, x: Single, y: Single, r: Single, id: u32, q: PlayerData)
    ensures
        crate::grid::sights(Seq::empty(), x, y, r, id) == Seq::<PlayerData>::empty(),
        crate::grid::sights(s.push(q), x, y, r, id) == if crate::grid::sees(x, y, r, id, q) {
            crate::grid::sights(s, x, y, r, id).push(q)
        } else {
            crate::grid::sights(s, x, y, r, id)
        },
{
    reveal(Seq::filter);
    assert(s.push(q).drop_last() =~= s);
}

/// A square `a` comes no later than a square `b`: in an earlier row, or in the same row and no
/// further along it.
pub open spec fn no_later(a: (usize, usize), b: (usize, usize)) -> bool {
    a.1 < b.1 || (a.1 == b.1 && a.0 <= b.0)
}

/// The square of a player.
pub open spec fn home(p: PlayerData) -> (usize, usize) {
    crate::router::cell_of(p.x, p.y)
}

/// Those of a list whose square is `c`, in their order.
pub open spec fn at_home(s: Seq<PlayerData>, c: (usize, usize)) -> Seq<PlayerData> {
    s.filter(|p: PlayerData| home(p) == c)
}

proof fn lemma_cell_homes(
    m: Map<(usize, usize), Seq<PlayerData>>,
    p: PlayerData,
    d: (usize, usize),
)
    requires
        crate::router::in_order(m),
    ensures
        forall|i: int|
            0 <= i < crate::router::cell_sights(m, p, d).len() ==> home(
                #[trigger] crate::router::cell_sights(m, p, d)[i],
            ) == d,
{
    let s = crate::router::cell_sights(m, p, d);
    assert forall|i: int| 0 <= i < s.len() implies home(#[trigger] s[i]) == d by {
        lemma_times_nonneg(s, s[i]);
        assert(s.contains(s[i]));
        lemma_times_sights(
            crate::router::at(m, d),
            p.x,
            p.y,
            Single { bits: VIEW_RADIUS },
            p.id,
            s[i],
        );
        lemma_elsewhere(m, d, s[i]);
    }
}

proof fn lemma_all_at_home(s: Seq<PlayerData>, c: (usize, usize), d: (usize, usize))
    requires
        forall|i: int| 0 <= i < s.len() ==> home(#[trigger] s[i]) == d,
    ensures
        at_home(s, c) == if c == d {
            s
        } else {
            Seq::empty()
        },
    decreases s.len(),
{
    reveal(Seq::filter);
    if s.len() > 0 {
        let t = s.drop_last();
        assert forall|i: int| 0 <= i < t.len() implies home(#[trigger] t[i]) == d by {
            assert(t[i] == s[i]);
        }
        lemma_all_at_home(t, c, d);
        assert(s[s.len() - 1] == s.last());
        assert(t.push(s.last()) =~= s);
    } else {
        assert(s =~= Seq::empty());
    }
}

proof fn lemma_row_order(
    m: Map<(usize, usize), Seq<PlayerData>>,
    p: PlayerData,
    lo: int,
    hi: int,
    row: int,
    c: (usize, usize),
)
    requires
        crate::router::in_order(m),
        0 <= lo,
        hi <= usize::MAX,
        0 <= row <= usize::MAX,
    ensures
        ({
            let s = crate::router::row_sights(m, p, lo, hi, row);
            &&& forall|i: int|
                0 <= i < s.len() ==> home(#[trigger] s[i]).1 == row && lo <= home(s[i]).0 <= hi
            &&& forall|i: int, j: int|
                0 <= i < j < s.len() ==> no_later(home(#[trigger] s[i]), home(#[trigger] s[j]))
            &&& at_home(s, c) == if lo <= c.0 <= hi && c.1 == row {
                crate::router::cell_sights(m, p, c)
            } else {
                Seq::empty()
            }
        }),
    decreases hi - lo + 1,
{
    let s = crate::router::row_sights(m, p, lo, hi, row);
    if lo <= hi {
        let d = (hi as usize, row as usize);
        let here = crate::router::cell_sights(m, p, d);
        let before = crate::router::row_sights(m, p, lo, hi - 1, row);
        lemma_row_order(m, p, lo, hi - 1, row, c);
        lemma_cell_homes(m, p, d);
        lemma_all_at_home(here, c, d);
        Seq::filter_distributes_over_add(before, here, |q: PlayerData| home(q) == c);
        assert forall|i: int| 0 <= i < s.len() implies home(#[trigger] s[i]).1 == row && lo <= home(
            s[i],
        ).0 <= hi by {
            if i < before.len() {
                assert(s[i] == before[i]);
            } else {
                assert(s[i] == here[i - before.len()]);
            }
        }
        assert forall|i: int, j: int| 0 <= i < j < s.len() implies no_later(
            home(#[trigger] s[i]),
            home(#[trigger] s[j]),
        ) by {
            if j < before.len() {
                assert(s[i] == before[i] && s[j] == before[j]);
            } else {
                assert(s[j] == here[j - before.len()]);
            }
        }
        assert(at_home(s, c) =~= if lo <= c.0 <= hi && c.1 == row {
            crate::router::cell_sights(m, p, c)
        } else {
            Seq::empty()
        });
    } else {
        reveal(Seq::filter);
    }
}

proof fn lemma_block_order(
    m: Map<(usize, usize), Seq<PlayerData>>,
    p: PlayerData,
    lo: int,
    hi: int,
    top: int,
    bottom: int,
    c: (usize, usize),
)
    requires
        crate::router::in_order(m),
        0 <= lo,
        hi <= usize::MAX,
        0 <= top,
        bottom <= usize::MAX,
    ensures
        ({
            let s = crate::router::block_sights(m, p, lo, hi, top, bottom);
            &&& forall|i: int| 0 <= i < s.len() ==> top <= home(#[trigger] s[i]).1 <= bottom
            &&& forall|i: int, j: int|
                0 <= i < j < s.len() ==> no_later(home(#[trigger] s[i]), home(#[trigger] s[j]))
            &&& at_home(s, c) == if lo <= c.0 <= hi && top <= c.1 <= bottom {
                crate::router::cell_sights(m, p, c)
            } else {
                Seq::empty()
            }
        }),
    decreases bottom - top + 1,
{
    let s = crate::router::block_sights(m, p, lo, hi, top, bottom);
    if top <= bottom {
        let here = crate::router::row_sights(m, p, lo, hi, bottom);
        let before = crate::router::block_sights(m, p, lo, hi, top, bottom - 1);
        lemma_block_order(m, p, lo, hi, top, bottom - 1, c);
        lemma_row_order(m, p, lo, hi, bottom, c);
        Seq::filter_distributes_over_add(before, here, |q: PlayerData| home(q) == c);
        assert forall|i: int| 0 <= i < s.len() implies top <= home(#[trigger] s[i]).1
            <= bottom by {
            if i < before.len() {
                assert(s[i] == before[i]);
            } else {
                assert(s[i] == here[i - before.len()]);
            }
        }
        assert forall|i: int, j: int| 0 <= i < j < s.len() implies no_later(
            home(#[trigger] s[i]),
            home(#[trigger] s[j]),
        ) by {
            if j < before.len() {
                assert(s[i] == before[i] && s[j] == before[j]);
            } else if i < before.len() {
                assert(s[i] == before[i] && s[j] == here[j - before.len()]);
            } else {
                assert(s[i] == here[i - before.len()] && s[j] == here[j - before.len()]);
            }
        }
        assert(at_home(s, c) =~= if lo <= c.0 <= hi && top <= c.1 <= bottom {
            crate::router::cell_sights(m, p, c)
        } else {
            Seq::empty()
        });
    } else {
        reveal(Seq::filter);
    }
}

/// The order of a stream: row by row, in a row square by square, and in a square in the order in
/// which the players came. The squares are those that are no more than one away from the player's
/// own on either axis.
pub proof fn law_stream_order(
    m: Map<(usize, usize), Seq<PlayerData>>,
    p: PlayerData,
    c: (usize, usize),
    i: int,
    j: int,
)
    requires
        crate::router::in_order(m),
    ensures
        ({
            let s = crate::router::surroundings(m, p);
            let h = home(p);
            &&& 0 <= i < j < s.len() ==> no_later(home(s[i]), home(s[j]))
            &&& at_home(s, c) == if c.0 <= h.0 + 1 && h.0 <= c.0 + 1 && c.1 <= h.1 + 1 && h.1 <= c.1
                + 1 {
                crate::grid::sights(
                    crate::router::at(m, c),
                    p.x,
                    p.y,
                    Single { bits: VIEW_RADIUS },
                    p.id,
                )
            } else {
                Seq::empty()
            }
        }),
{
    let h = home(p);
    lemma_block_order(
        m,
        p,
        crate::router::before(h.0),
        crate::router::after(h.0),
        crate::router::before(h.1),
        crate::router::after(h.1),
        c,
    );
}

/// After a tick each square holds those of the crowd that stand in it, in the order of the crowd.
pub proof fn law_arrival(
    m: Map<(usize, usize), Seq<PlayerData>>,
    s: Seq<PlayerData>,
    c: (usize, usize),
)
    ensures
        crate::router::at(crate::simulation::populated(crate::router::emptied(m), s), c)
            == at_home(s, c),
    decreases s.len(),
{
    reveal(Seq::filter);
    if s.len() > 0 {
        law_arrival(m, s.drop_last(), c);
    } else {
        assert(at_home(s, c) =~= Seq::<PlayerData>::empty());
    }
}

/// Nothing of an earlier tick stays in the squares: after one tick or more each holds those of the
/// crowd that stand in it now, in the order of the crowd.
pub proof fn law_squares_after(
    m: Map<(usize, usize), Seq<PlayerData>>,
    s: Seq<PlayerData>,
    n: nat,
    c: (usize, usize),
)
    requires
        n > 0,
    ensures
        crate::router::at(crate::simulation::squares_after(m, s, n), c) == at_home(
            crate::simulation::players_after(s, n),
            c,
        ),
{
    law_arrival(
        crate::simulation::squares_after(m, s, (n - 1) as nat),
        crate::simulation::players_after(s, n),
        c,
    );
}

/// A coordinate that is the integer `v`.
pub open spec fn is_whole(x: Single, v: int) -> bool {
    !x.is_negative() && x.is_finite() && x.units() == v * crate::single::one()
}

/// An integer that is a number of single precision.
pub open spec fn is_single(v: int) -> bool {
    crate::single::mag(crate::single::rounded(v * crate::single::one(), 1)) == v
        * crate::single::one()
}

/// Where `i` and `i * factor` are numbers of single precision, player `i` starts at that product,
/// brought onto the map.
pub proof fn law_start(i: int, factor: int)
    requires
        0 <= i,
        0 < factor,
        is_single(i),
        is_single(i * factor),
    ensures
        is_whole(crate::simulation::start(i, factor), (i * factor) % MAP_SIZE as int),
{
    let o = crate::single::one();
    assert((i * o) * factor == (i * factor) * o && 0 <= i * factor) by (nonlinear_arith)
        requires
            0 <= i,
            0 < factor,
    ;
    lemma_whole_remainder(crate::single::rounded((i * factor) * o, 1), i * factor);
}

proof fn lemma_whole_remainder(b: int, v: int)
    requires
        0 <= v,
        crate::single::mag(b) == v * crate::single::one(),
    ensures
        is_whole(crate::arith::remainder(b, MAP_SIZE as int), v % MAP_SIZE as int),
{
    let o = crate::single::one();
    let k = MAP_SIZE as int;
    crate::single::lemma_p2_pos(149);
    crate::arith::lemma_scaled_rem(v, k, o, v % k);
    crate::coverage::lemma_whole(v % k);
    let r = crate::single::rounded((v % k) * o, 1);
    assert(crate::arith::remainder(b, k).bits == r);
}

/// In one tick a player at an integer moves to the next one, and from the end of the map to its
/// beginning.
pub proof fn law_onward(x: Single, v: int)
    requires
        is_whole(x, v),
        0 <= v < MAP_SIZE,
    ensures
        is_whole(crate::simulation::onward(x), (v + 1) % MAP_SIZE as int),
{
    let o = crate::single::one();
    assert(v * o + o == (v + 1) * o) by (nonlinear_arith);
    crate::coverage::lemma_whole(v + 1);
    lemma_whole_remainder(crate::single::rounded((v + 1) * o, 1), v + 1);
}

/// After `n` ticks a player at an integer has moved by `n`, round the map.
pub proof fn law_players_after(s: Seq<PlayerData>, n: nat, i: int, vx: int, vy: int)
    requires
        0 <= i < s.len(),
        is_whole(s[i].x, vx),
        is_whole(s[i].y, vy),
        0 <= vx < MAP_SIZE,
        0 <= vy < MAP_SIZE,
    ensures
        crate::simulation::players_after(s, n).len() == s.len(),
        crate::simulation::players_after(s, n)[i].id == s[i].id,
        is_whole(crate::simulation::players_after(s, n)[i].x, (vx + n) % MAP_SIZE as int),
        is_whole(crate::simulation::players_after(s, n)[i].y, (vy + n) % MAP_SIZE as int),
    decreases n,
{
    let k = MAP_SIZE as int;
    if n > 0 {
        let prev = crate::simulation::players_after(s, (n - 1) as nat);
        law_players_after(s, (n - 1) as nat, i, vx, vy);
        vstd::arithmetic::div_mod::lemma_add_mod_noop_right(1, vx + n - 1, k);
        vstd::arithmetic::div_mod::lemma_add_mod_noop_right(1, vy + n - 1, k);
        law_onward(prev[i].x, (vx + n - 1) % k);
        law_onward(prev[i].y, (vy + n - 1) % k);
        assert(crate::simulation::players_after(s, n)[i] == crate::simulation::walked(prev[i]));
    }
}

/// Player `i` of a crowd has the number `i`, so that no two players share one, and starts at `13 * i`
/// on the one axis and at `17 * i` on the other, brought onto the map, where these are numbers of
/// single precision.
pub proof fn law_starter(i: int, j: int)
    requires
        0 <= i <= u32::MAX,
        0 <= j <= u32::MAX,
    ensures
        crate::simulation::starter(i).id == i,
        i != j ==> crate::simulation::starter(i).id != crate::simulation::starter(j).id,
        crate::simulation::starter(i).x == crate::simulation::start(i, 13),
        crate::simulation::starter(i).y == crate::simulation::start(i, 17),
        is_single(i) && is_single(i * 13) ==> is_whole(
            crate::simulation::starter(i).x,
            (13 * i) % 10_000,
        ),
        is_single(i) && is_single(i * 17) ==> is_whole(
            crate::simulation::starter(i).y,
            (17 * i) % 10_000,
        ),
{
    if is_single(i) && is_single(i * 13) {
        law_start(i, 13);
    }
    if is_single(i) && is_single(i * 17) {
        law_start(i, 17);
    }
}

/// Every player starts at an integer on the map: the remainder of a number that differs from the
/// exact product by no more than its 2^22nd part.
pub proof fn law_start_near(i: int, factor: int)
    requires
        0 <= i <= u64::MAX,
        0 < factor < 0x100,
    ensures
        exists|v: int|
            #[trigger] is_whole(crate::simulation::start(i, factor), v % 10_000) && 0 <= v
                && 0x40_0000 * crate::single::abs(v - i * factor) <= i * factor,
{
    let o = crate::single::one();
    crate::arith::lemma_whole_is_finite(i);
    crate::simulation::lemma_start_is_finite(i, factor);
    let a = crate::coverage::lemma_whole_rounded(i);
    assert((a * o) * factor == (a * factor) * o && 0 <= a * factor) by (nonlinear_arith)
        requires
            0 <= a,
            0 < factor,
    ;
    let v = crate::coverage::lemma_whole_rounded(a * factor);
    lemma_whole_remainder(crate::single::rounded((a * factor) * o, 1), v);
    let (x, y) = (i * factor, a * factor);
    assert(0x100_0000 * crate::single::abs(x - y) <= x && 0 <= x) by (nonlinear_arith)
        requires
            0x100_0000 * crate::single::abs(i - a) <= i,
            0 <= i,
            0 < factor,
            x == i * factor,
            y == a * factor,
    ;
    assert(0x40_0000 * crate::single::abs(v - x) <= x);
    assert(is_whole(crate::simulation::start(i, factor), v % 10_000));
}

/// The number `x` is where a player that has number `i` starts on an axis: the remainder of the
/// number nearest to `factor` times the number nearest to `i`. Their patterns are `b` and `a`.
pub open spec fn starts_at(i: int, factor: int, x: Single, a: int, b: int) -> bool {
    let o = crate::single::one();
    &&& crate::single::is_nearest(a, i * o, 1)
    &&& crate::single::is_nearest(b, crate::single::mag(a) * factor, 1)
    &&& !x.is_negative()
    &&& x.is_finite()
    &&& x.units() == crate::single::mag(b) % (10_000 * o)
}

/// Where players start, exactly: each step is rounded to the nearest number, and the remainder is
/// exact. The factor is 13 on the one axis and 17 on the other.
pub proof fn law_start_exact(i: int)
    requires
        0 <= i <= u64::MAX,
    ensures
        exists|a: int, b: int|
            #[trigger] starts_at(i, 13, crate::simulation::starter(i).x, a, b),
        exists|a: int, b: int|
            #[trigger] starts_at(i, 17, crate::simulation::starter(i).y, a, b),
{
    let p = crate::simulation::starter(i);
    lemma_starts_at(i, 13);
    lemma_starts_at(i, 17);
    let (a, b) = choose|a: int, b: int|
        #[trigger] starts_at(i, 13, crate::simulation::start(i, 13), a, b);
    assert(starts_at(i, 13, p.x, a, b));
    let (c, d) = choose|c: int, d: int|
        #[trigger] starts_at(i, 17, crate::simulation::start(i, 17), c, d);
    assert(starts_at(i, 17, p.y, c, d));
}

proof fn lemma_starts_at(i: int, factor: int)
    requires
        0 <= i <= u64::MAX,
        0 < factor < 0x100,
    ensures
        exists|a: int, b: int|
            #[trigger] starts_at(i, factor, crate::simulation::start(i, factor), a, b),
{
    let o = crate::single::one();
    let a = crate::single::rounded(i * o, 1);
    let n = crate::single::mag(a) * factor;
    let b = crate::single::rounded(n, 1);
    crate::single::lemma_p2_pos(149);
    assert(0 <= i * o) by (nonlinear_arith)
        requires
            0 <= i,
            0 < o,
    ;
    crate::arith::lemma_whole_is_finite(i);
    crate::simulation::lemma_start_is_finite(i, factor);
    crate::single::lemma_nearest_exists(i * o, 1);
    crate::single::lemma_mag_nonneg(a);
    assert(0 <= n) by (nonlinear_arith)
        requires
            n == crate::single::mag(a) * factor,
            0 <= crate::single::mag(a),
            0 < factor,
    ;
    crate::single::lemma_nearest_exists(n, 1);
    crate::arith::lemma_remainder(b, 10_000);
    assert(starts_at(i, factor, crate::simulation::start(i, factor), a, b));
}

/// The coordinate `r` is one further than `x`, round the map: the remainder of the number that is
/// nearest to that. Its pattern is `b`, and it differs from the exact sum by no more than the 2^24th
/// part of it.
pub open spec fn goes_on(x: Single, r: Single, b: int) -> bool {
    let o = crate::single::one();
    let v = crate::single::mag(b);
    &&& crate::single::is_nearest(b, x.units() + o, 1)
    &&& 0x100_0000 * crate::single::abs(v - (x.units() + o)) <= x.units() + o
    &&& !r.is_negative()
    &&& r.is_finite()
    &&& r.units() == v % (10_000 * o)
}

/// In one tick a coordinate on the map goes on by one, round the map, up to what rounding the sum
/// changes, which is at most its 2^24th part.
pub proof fn law_onward_near(x: Single)
    requires
        crate::simulation::on_map(x),
    ensures
        crate::simulation::on_map(crate::simulation::onward(x)),
        exists|b: int| #[trigger] goes_on(x, crate::simulation::onward(x), b),
{
    let o = crate::single::one();
    let n = x.units() + o;
    crate::single::lemma_p2_pos(149);
    crate::single::lemma_p2_values();
    vstd::arithmetic::power2::lemma_pow2_strictly_increases(24, 149);
    crate::single::lemma_mag_nonneg(x.pattern());
    crate::simulation::lemma_onward_is_finite(x);
    crate::single::lemma_relative(n, 1);
    crate::single::lemma_nearest_exists(n, 1);
    let b = crate::single::rounded(n, 1);
    let v = crate::single::mag(b);
    crate::single::lemma_mag_nonneg(b);
    crate::arith::lemma_remainder(b, 10_000);
    vstd::arithmetic::div_mod::lemma_mod_bound(v, 10_000 * o);
    assert(goes_on(x, crate::simulation::onward(x), b));
}

/// In one tick every player of the crowd keeps its number and its place in the list, and each of its
/// coordinates goes on by itself.
pub proof fn law_all_walked(s: Seq<PlayerData>, i: int)
    requires
        0 <= i < s.len(),
        crate::simulation::on_map(s[i].x),
        crate::simulation::on_map(s[i].y),
    ensures
        ({
            let t = crate::simulation::all_walked(s);
            &&& t.len() == s.len()
            &&& t[i].id == s[i].id
            &&& exists|b: int| #[trigger] goes_on(s[i].x, t[i].x, b)
            &&& exists|b: int| #[trigger] goes_on(s[i].y, t[i].y, b)
        }),
{
    let t = crate::simulation::all_walked(s);
    assert(t[i] == crate::simulation::walked(s[i]));
    law_onward_near(s[i].x);
    law_onward_near(s[i].y);
    let v = choose|v: int| #[trigger] goes_on(s[i].x, t[i].x, v);
    assert(goes_on(s[i].x, t[i].x, v));
    let w = choose|w: int| #[trigger] goes_on(s[i].y, t[i].y, w);
    assert(goes_on(s[i].y, t[i].y, w));
}

/// A run can be cut into shorter ones: walking on for `b` ticks from where the crowd is after `a`
/// ticks leads to where it is after `a + b`. A single tick moves everybody once.
pub proof fn law_run_in_parts(s: Seq<PlayerData>, a: nat, b: nat)
    ensures
        crate::simulation::players_after(s, a + b) == crate::simulation::players_after(
            crate::simulation::players_after(s, a),
            b,
        ),
        crate::simulation::players_after(s, 1) == crate::simulation::all_walked(s),
        crate::simulation::players_after(s, 0) == s,
    decreases b,
{
    reveal_with_fuel(crate::simulation::players_after, 2);
    if b > 0 {
        law_run_in_parts(s, a, (b - 1) as nat);
    }
}

/// An update puts a player behind the others of its square, and leaves all other squares as they
/// are. Emptying leaves nobody in any square.
pub proof fn law_placed(
    m: Map<(usize, usize), Seq<PlayerData>>,
    p: PlayerData,
    c: (usize, usize),
)
    ensures
        ({
            let n = crate::router::placed(m, p);
            &&& c == home(p) ==> crate::router::at(n, c) == crate::router::at(m, c).push(p)
            &&& c != home(p) ==> crate::router::at(n, c) == crate::router::at(m, c)
            &&& n.contains_key(c) <==> m.contains_key(c) || c == home(p)
            &&& crate::router::at(crate::router::emptied(m), c) == Seq::<PlayerData>::empty()
            &&& crate::router::emptied(m).contains_key(c) <==> m.contains_key(c)
        }),
{
}

/// A query keeps what the buffer lists, and puts behind it those that are seen, in their order, as
/// far as fifty entries go.
pub proof fn law_query(
    before: StreamBuffer,
    players: Seq<PlayerData>,
    x: Single,
    y: Single,
    r: Single,
    id: u32,
    after: StreamBuffer,
    i: int,
)
    requires
        before.in_place(),
        crate::grid::gathered(before, players, x, y, r, id, after),
    ensures
        ({
            let seen = crate::grid::sights(players, x, y, r, id);
            let n = before@.len() + seen.len();
            &&& after@.len() == if n < 50 {
                n
            } else {
                50
            }
            &&& 0 <= i < before@.len() ==> after@[i] == before@[i]
            &&& before@.len() <= i < after@.len() ==> after@[i] == seen[i - before@.len()]
            &&& 0 <= i < after@.len() ==> after.slots()[i] == after@[i]
            &&& after@.len() <= i < 50 ==> after.slots()[i] == before.slots()[i]
        }),
{
}

/// A stream tells of the first fifty that its player sees around it; the slots behind them hold
/// zeros.
pub proof fn law_streamed(
    m: Map<(usize, usize), Seq<PlayerData>>,
    p: PlayerData,
    buf: StreamBuffer,
    i: int,
)
    requires
        crate::router::streamed(m, p, buf),
    ensures
        ({
            let seen = crate::router::surroundings(m, p);
            &&& buf@.len() == if seen.len() < 50 {
                seen.len()
            } else {
                50
            }
            &&& 0 <= i < buf@.len() ==> buf@[i] == seen[i] && buf.slots()[i] == seen[i]
            &&& buf@.len() <= i < 50 ==> buf.slots()[i].id == 0 && buf.slots()[i].x.bits == 0
                && buf.slots()[i].y.bits == 0
        }),
{
}

/// What a player is told after a tick: of nobody but other players of the crowd that are no further
/// away than 50 on either axis, up to the slack of rounding; and of every one of these, whatever its
/// id, unless fifty have been told of already.
pub proof fn law_told(
    m: Map<(usize, usize), Seq<PlayerData>>,
    crowd: Seq<PlayerData>,
    p: PlayerData,
    q: PlayerData,
    buf: StreamBuffer,
)
    requires
        p.x.is_finite(),
        p.y.is_finite(),
        q.x.is_finite(),
        q.y.is_finite(),
        crate::router::streamed(
            crate::simulation::populated(crate::router::emptied(m), crowd),
            p,
            buf,
        ),
    ensures
        ({
            let reach = 50 * crate::single::one() + crate::coverage::slack();
            let in_box = crate::single::abs(q.x.units() - p.x.units()) <= reach
                && crate::single::abs(q.y.units() - p.y.units()) <= reach;
            &&& buf@.len() <= 50
            &&& buf@.contains(q) ==> crowd.contains(q) && q.id != p.id && in_box
            &&& crowd.contains(q) && q.id != p.id && in_box && buf@.len() < 50 ==> buf@.contains(q)
        }),
{
    let n = crate::simulation::populated(crate::router::emptied(m), crowd);
    let seen = crate::router::surroundings(n, p);
    law_sight(p, q);
    law_tick(m, crowd, p, q);
    lemma_times_nonneg(crowd, q);
    lemma_times_nonneg(seen, q);
    if buf@.contains(q) {
        let i = choose|i: int| 0 <= i < buf@.len() && buf@[i] == q;
        assert(seen[i] == q);
    }
}

} // verus!
