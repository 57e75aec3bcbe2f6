//! The state of a viewer: the players that it has been told of, and for how long they count.
use crate::records::PlayerData;
use crate::single::Single;
use crate::wire::HEADER_BYTES;
use vstd::prelude::*;

verus! {

/// The number of players that a viewer has memory for.
pub const MAX_P_COUNT: usize = 2_000_000;

/// A coordinate outside of every view: the pattern of -999999.
pub const HIDDEN: u32 = 0xC974_23F0;

/// For how many milliseconds the players still count when nothing is heard of the server.
pub const SILENCE_MS: u64 = 1000;

/// How many players there are to draw, and when the server was last heard of, in nanoseconds.
#[derive(Clone, Copy, PartialEq, Eq, Structural, Debug)]
pub struct ViewerState {
    pub active: u32,
    pub last_recv: u64,
}

/// Where the records of a datagram go.
#[derive(Clone, Copy, PartialEq, Eq, Structural, Debug)]
pub struct Update {
    /// The byte of the viewer's memory at which the records begin.
    pub byte_offset: u64,
    /// The player after the last one.
    pub end_idx: u32,
}

/// The player after the last one of a datagram, as its header has it.
pub open spec fn end_of(d: Seq<u8>) -> int {
    crate::wire::word_at(d, 0) + crate::wire::word_at(d, 4)
}

/// The header of a datagram counts further than a word does.
pub open spec fn runs_over(d: Seq<u8>) -> bool {
    d.len() >= HEADER_BYTES && end_of(d) > u32::MAX
}

/// The datagram has a header, and all its players fit into the viewer's memory.
pub open spec fn accepted(d: Seq<u8>) -> bool {
    d.len() >= HEADER_BYTES && end_of(d) <= MAX_P_COUNT
}

/// Where the records of a datagram go, if it is accepted.
pub open spec fn update_of(d: Seq<u8>) -> Option<Update> {
    if accepted(d) {
        Some(
            Update {
                byte_offset: (crate::wire::word_at(d, 0) * 16) as u64,
                end_idx: end_of(d) as u32,
            },
        )
    } else {
        None
    }
}

/// A datagram that begins with the words `offset` and `count` is accepted exactly where the viewer's
/// memory reaches to player `offset + count`, whatever comes behind the two words. Its records go to
/// the place of player `offset`, at sixteen bytes for each player before it.
pub proof fn law_accepted(offset: u32, count: u32, body: Seq<u8>)
    ensures
        ({
            let d = crate::wire::word_bytes(offset) + crate::wire::word_bytes(count) + body;
            let end = offset + count;
            &&& accepted(d) <==> end <= 2_000_000
            &&& runs_over(d) <==> end > u32::MAX
            &&& end_of(d) == end
            &&& end > 2_000_000 ==> update_of(d) is None
            &&& end <= 2_000_000 ==> update_of(d) == Some(
                Update { byte_offset: (16 * offset) as u64, end_idx: end as u32 },
            )
        }),
{
    let d = crate::wire::word_bytes(offset) + crate::wire::word_bytes(count) + body;
    let (f, c) = (crate::wire::word_bytes(offset), crate::wire::word_bytes(count));
    crate::wire::law_word(offset);
    crate::wire::law_word(count);
    assert(f[0] == d[0] && f[1] == d[1] && f[2] == d[2] && f[3] == d[3]);
    assert(c[0] == d[4] && c[1] == d[5] && c[2] == d[6] && c[3] == d[7]);
    assert(crate::wire::word_at(d, 0) == crate::wire::word_at(f, 0));
    assert(crate::wire::word_at(d, 4) == crate::wire::word_at(c, 0));
}

/// What is too short for a header is passed over.
pub proof fn law_too_short(d: Seq<u8>)
    requires
        d.len() < 8,
    ensures
        !accepted(d),
        !runs_over(d),
        update_of(d) is None,
{
}

/// Whether the header of a datagram counts further than a word does.
pub fn header_runs_over(d: &[u8]) -> (r: bool)
    ensures
        r == runs_over(d@),
{
    if d.len() < HEADER_BYTES {
        return false;
    }
    crate::wire::read_word(d, 0) as u64 + crate::wire::read_word(d, 4) as u64 > u32::MAX as u64
}

impl ViewerState {
    /// A viewer that has not been told of anybody.
    pub fn new(now: u64) -> (v: Self)
        ensures
            v == (ViewerState { active: 0, last_recv: now }),
    {
        ViewerState { active: 0, last_recv: now }
    }

    /// Takes a datagram, and says where its records go. Nothing changes where it is not accepted.
    pub fn receive(&mut self, d: &[u8], now: u64) -> (u: Option<Update>)
        requires
            !runs_over(d@),
        ensures
            u == update_of(d@),
            *final(self) == (if accepted(d@) {
                ViewerState {
                    active: if old(self).active < end_of(d@) {
                        end_of(d@) as u32
                    } else {
                        old(self).active
                    },
                    last_recv: now,
                }
            } else {
                *old(self)
            }),
    {
        if d.len() < HEADER_BYTES {
            return None;
        }
        let offset = crate::wire::read_word(d, 0);
        let count = crate::wire::read_word(d, 4);
        let end_idx: u32 = offset + count;
        if end_idx as usize > MAX_P_COUNT {
            return None;
        }
        if self.active < end_idx {
            self.active = end_idx;
        }
        self.last_recv = now;
        Some(Update { byte_offset: offset as u64 * 16, end_idx })
    }

    /// The number of players to draw now, if there are any. After too long a silence there are
    /// none.
    pub fn redraw(&mut self, now: u64) -> (draw: Option<u32>)
        ensures
            final(self).last_recv == old(self).last_recv,
            final(self).active == (if (now - old(self).last_recv) / 1_000_000 > SILENCE_MS {
                0
            } else {
                old(self).active
            }),
            draw == (if final(self).active > 0 {
                Some(final(self).active)
            } else {
                None
            }),
    {
        if now.saturating_sub(self.last_recv) / 1_000_000 > SILENCE_MS {
            self.active = 0;
        }
        if self.active > 0 {
            Some(self.active)
        } else {
            None
        }
    }
}

/// Whether a window of this size can be drawn on.
pub fn drawable(width: u32, height: u32) -> (r: bool)
    ensures
        r == (width > 0 && height > 0),
{
    width > 0 && height > 0
}

/// The records of a datagram: what comes behind its header.
pub fn payload(d: &[u8]) -> (body: &[u8])
    requires
        d@.len() >= HEADER_BYTES,
    ensures
        body@ == d@.skip(HEADER_BYTES as int),
{
    let body = vstd::slice::slice_subrange(d, HEADER_BYTES, d.len());
    assert(body@ =~= d@.skip(HEADER_BYTES as int));
    body
}

/// A player that nobody sees.
pub open spec fn hidden() -> PlayerData {
    PlayerData { next: 0, id: 0, x: Single { bits: HIDDEN }, y: Single { bits: HIDDEN } }
}

/// A hidden player stands at -999999 on both axes.
pub proof fn law_hidden()
    ensures
        hidden().x.units() == -999_999 * crate::single::one(),
        hidden().y.units() == -999_999 * crate::single::one(),
        hidden().next == 0,
        hidden().id == 0,
{
    vstd::arithmetic::power2::lemma2_to64();
    crate::single::lemma_p2_add(4, 145);
    crate::single::lemma_mag_split(145, 0xF4_23F0);
    assert(0xF4_23F0 * crate::single::p2(145) == 999_999 * crate::single::one())
        by (nonlinear_arith)
        requires
            crate::single::one() == 16 * crate::single::p2(145),
    ;
}

/// A hidden player is drawn off the screen, which begins at -1 on both axes. On a map whose half
/// side is 50,000,000 a coordinate `x` is drawn at `(x - half) / half`, and the corners of its square
/// lie up to 0.0001 to either side. Here `s` is that offset in units of 0.0001, and the corner is
/// given times `10,000 * half`: it lies below -1.019 in exact arithmetic. How the device rounds is
/// not part of this.
pub proof fn law_hidden_off_screen(s: int)
    requires
        -1 <= s <= 1,
    ensures
        ({
            let half = 50_000_000 * crate::single::one();
            let corner_x = (hidden().x.units() - half) * 10_000 + s * half;
            let corner_y = (hidden().y.units() - half) * 10_000 + s * half;
            &&& 1000 * corner_x < -1019 * (10_000 * half)
            &&& 1000 * corner_y < -1019 * (10_000 * half)
        }),
{
    let o = crate::single::one();
    let half = 50_000_000 * o;
    law_hidden();
    crate::single::lemma_p2_pos(149);
    assert(s * half <= half) by (nonlinear_arith)
        requires
            s <= 1,
            half >= 0,
    ;
}

/// Players that nobody sees, to fill the viewer's memory with.
pub fn hidden_players(count: usize) -> (players: Vec<PlayerData>)
    ensures
        players@ == Seq::new(count as nat, |i: int| hidden()),
{
    let mut players: Vec<PlayerData> = Vec::new();
    let p = PlayerData { next: 0, id: 0, x: Single { bits: HIDDEN }, y: Single { bits: HIDDEN } };
    let mut i: usize = 0;
    while i < count
        invariant
            i <= count,
            p == hidden(),
            players@ =~= Seq::new(i as nat, |j: int| hidden()),
        decreases count - i,
    {
        players.push(p);
        i = i + 1;
    }
    players
}

/// The viewer's memory after the records of a datagram have been put where they go.
pub open spec fn stored(mem: Seq<u8>, d: Seq<u8>) -> Seq<u8> {
    let body = d.skip(HEADER_BYTES as int);
    match update_of(d) {
        Some(u) if u.byte_offset + body.len() <= mem.len() => mem.take(u.byte_offset as int) + body
            + mem.skip(u.byte_offset + body.len()),
        _ => mem,
    }
}

/// The viewer's memory after datagrams have come in.
pub open spec fn all_stored(mem: Seq<u8>, ds: Seq<Seq<u8>>) -> Seq<u8>
    decreases ds.len(),
{
    if ds.len() == 0 {
        mem
    } else {
        stored(all_stored(mem, ds.drop_last()), ds.last())
    }
}

/// The record of player `i` as it lies in a viewer's memory.
pub open spec fn record(mem: Seq<u8>, i: int) -> Seq<u8> {
    mem.subrange(16 * i, 16 * i + 16)
}

/// The datagram is accepted, and some of its bytes go to the record of player `i`.
pub open spec fn touches(d: Seq<u8>, i: int) -> bool {
    match update_of(d) {
        Some(u) => u.byte_offset < 16 * i + 16 && 16 * i < u.byte_offset + d.len() - HEADER_BYTES,
        None => false,
    }
}

/// A datagram that holds as many records as its header says touches exactly the players from its
/// first one up to its end, if it is accepted.
pub proof fn law_touches(d: Seq<u8>, i: int)
    requires
        d.len() == HEADER_BYTES + 16 * crate::wire::word_at(d, 4),
    ensures
        touches(d, i) <==> accepted(d) && crate::wire::word_at(d, 0) <= i < end_of(d),
{
}

/// Whatever datagrams come in, the record of a player that none of them touches stays as it was.
pub proof fn law_untouched(mem: Seq<u8>, ds: Seq<Seq<u8>>, i: int)
    requires
        mem.len() == 16 * MAX_P_COUNT,
        0 <= i < MAX_P_COUNT,
        forall|k: int| 0 <= k < ds.len() ==> !touches(#[trigger] ds[k], i),
    ensures
        all_stored(mem, ds).len() == mem.len(),
        record(all_stored(mem, ds), i) == record(mem, i),
    decreases ds.len(),
{
    if ds.len() > 0 {
        let rest = ds.drop_last();
        assert forall|k: int| 0 <= k < rest.len() implies !touches(#[trigger] rest[k], i) by {
            assert(rest[k] == ds[k]);
        }
        law_untouched(mem, rest, i);
        let m = all_stored(mem, rest);
        assert(!touches(ds[ds.len() - 1], i));
        assert(stored(m, ds.last()).len() == m.len());
        assert(record(stored(m, ds.last()), i) =~= record(m, i));
    }
}

/// In a viewer's memory that was filled with hidden players, a player stays hidden until a datagram
/// touches it. The memory takes 32,000,000 bytes.
pub proof fn law_hidden_until_told(mem: Seq<u8>, ds: Seq<Seq<u8>>, i: int)
    requires
        0 <= i < MAX_P_COUNT,
        forall|k: int| 0 <= k < ds.len() ==> !touches(#[trigger] ds[k], i),
    ensures
        ({
            let all = crate::records::player_words(
                Seq::new(MAX_P_COUNT as nat, |j: int| hidden()),
            );
            let one = crate::records::player_words(seq![hidden()]);
            let r = record(all_stored(mem, ds), i);
            &&& mem == crate::records::little(all) ==> r == crate::records::little(one)
            &&& mem == crate::records::big(all) ==> r == crate::records::big(one)
            &&& crate::records::in_memory(all, mem) ==> all_stored(mem, ds).len() == 32_000_000
        }),
{
    let all = crate::records::player_words(Seq::new(MAX_P_COUNT as nat, |j: int| hidden()));
    let one = crate::records::player_words(seq![hidden()]);
    if crate::records::in_memory(all, mem) {
        law_untouched(mem, ds, i);
        assert forall|k: int| 0 <= k < 16 implies {
            &&& #[trigger] crate::records::little(all)[16 * i + k] == crate::records::little(one)[k]
            &&& crate::records::big(all)[16 * i + k] == crate::records::big(one)[k]
        } by {
            let w = 4 * i + k / 4;
            assert((16 * i + k) / 4 == w && (16 * i + k) % 4 == k % 4);
            assert(w / 4 == i && w % 4 == k / 4);
            assert((k / 4) / 4 == 0 && (k / 4) % 4 == k / 4);
            assert(all[w] == one[k / 4]);
        }
        if mem == crate::records::little(all) {
            assert(record(mem, i) =~= crate::records::little(one));
        }
        if mem == crate::records::big(all) {
            assert(record(mem, i) =~= crate::records::big(one));
        }
    }
}

/// The records of datagram `i` as they lie in a viewer's memory.
pub open spec fn section(mem: Seq<u8>, i: int, n: int) -> Seq<u8> {
    mem.subrange(16 * crate::wire::first(i), 16 * crate::wire::last(i, n))
}

proof fn lemma_stored(mem: Seq<u8>, d: Seq<u8>, frame: Seq<u8>, n: int, i: int)
    requires
        0 <= i < crate::wire::packets(n),
        n <= MAX_P_COUNT,
        frame.len() == 16 * n,
        crate::wire::is_part(d, frame, n, i),
        mem.len() == 16 * MAX_P_COUNT,
    ensures
        ({
            let m = stored(mem, d);
            &&& m.len() == mem.len()
            &&& section(m, i, n) == section(frame, i, n)
            &&& forall|j: int|
                0 <= j < crate::wire::packets(n) && j != i ==> #[trigger] section(m, j, n)
                    == section(mem, j, n)
            &&& m.skip(16 * n) == mem.skip(16 * n)
        }),
{
    let m = stored(mem, d);
    crate::wire::law_header(d, frame, n, i);
    crate::wire::law_chunks(n, i);
    assert(accepted(d));
    assert(section(m, i, n) =~= d.skip(8));
    assert forall|j: int| 0 <= j < crate::wire::packets(n) && j != i implies #[trigger] section(
        m,
        j,
        n,
    ) == section(mem, j, n) by {
        crate::wire::law_chunks(n, j);
        assert(section(m, j, n) =~= section(mem, j, n));
    }
    assert(m.skip(16 * n) =~= mem.skip(16 * n));
}

/// The datagrams of one frame may come in any order, more than once or not at all. The records of
/// those that came are then in the viewer's memory, each at the place of its players, and nothing
/// else has changed.
pub proof fn law_delivery(
    mem: Seq<u8>,
    frame: Seq<u8>,
    n: int,
    sent: Seq<Seq<u8>>,
    order: Seq<int>,
    i: int,
)
    requires
        0 <= n <= MAX_P_COUNT,
        mem.len() == 16 * MAX_P_COUNT,
        crate::wire::are_parts(sent, frame, n),
        forall|k: int| 0 <= k < order.len() ==> 0 <= #[trigger] order[k] < sent.len(),
        0 <= i < sent.len(),
    ensures
        ({
            let m = all_stored(mem, order.map_values(|j: int| sent[j]));
            &&& m.len() == mem.len()
            &&& m.skip(16 * n) == mem.skip(16 * n)
            &&& section(m, i, n) == if order.contains(i) {
                section(frame, i, n)
            } else {
                section(mem, i, n)
            }
        }),
    decreases order.len(),
{
    let f = |j: int| sent[j];
    let ds = order.map_values(f);
    if order.len() > 0 {
        let rest = order.drop_last();
        let k = order.last();
        assert(ds.drop_last() =~= rest.map_values(f));
        assert(ds.last() == sent[k]);
        assert forall|x: int| 0 <= x < rest.len() implies 0 <= #[trigger] rest[x] < sent.len() by {
            assert(rest[x] == order[x]);
        }
        law_delivery(mem, frame, n, sent, rest, i);
        let before = all_stored(mem, rest.map_values(f));
        assert(order[order.len() - 1] == k);
        lemma_stored(before, sent[k], frame, n, k);
        if order.contains(i) && k != i {
            let x = choose|x: int| 0 <= x < order.len() && order[x] == i;
            assert(rest[x] == i);
        }
        if rest.contains(i) {
            let x = choose|x: int| 0 <= x < rest.len() && rest[x] == i;
            assert(order[x] == i);
        }
    }
}

/// Receiving undoes the cutting into datagrams: once every datagram of a frame has come in, whatever
/// the order, the viewer's memory begins with that frame, and behind it nothing has changed. A
/// viewer that counted `start` players then counts the larger of `start` and the number of players
/// in the frame.
pub proof fn law_complete_delivery(
    mem: Seq<u8>,
    start: int,
    frame: Seq<u8>,
    n: int,
    sent: Seq<Seq<u8>>,
    order: Seq<int>,
)
    requires
        0 <= n <= MAX_P_COUNT,
        0 <= start,
        mem.len() == 16 * MAX_P_COUNT,
        crate::wire::are_parts(sent, frame, n),
        forall|k: int| 0 <= k < order.len() ==> 0 <= #[trigger] order[k] < sent.len(),
        forall|j: int| 0 <= j < sent.len() ==> #[trigger] order.contains(j),
    ensures
        ({
            let ds = order.map_values(|j: int| sent[j]);
            let m = all_stored(mem, ds);
            &&& m.take(16 * n) == frame
            &&& m.skip(16 * n) == mem.skip(16 * n)
            &&& m.len() == mem.len()
            &&& active_after(start, ds) == if start < n {
                n
            } else {
                start
            }
        }),
{
    let m = all_stored(mem, order.map_values(|j: int| sent[j]));
    if n > 0 {
        law_delivery(mem, frame, n, sent, order, 0);
        assert(order.contains(sent.len() - 1));
    }
    law_active_after(start, frame, n, sent, order, 0);
    assert forall|a: int| 0 <= a < 16 * n implies #[trigger] m[a] == frame[a] by {
        let i = a / 64000;
        let c = a - 64000 * i;
        assert(0 <= i < sent.len());
        crate::wire::law_chunks(n, i);
        law_delivery(mem, frame, n, sent, order, i);
        assert(order.contains(i));
        assert(section(m, i, n)[c] == m[a]);
        assert(section(frame, i, n)[c] == frame[a]);
    }
    assert(m.take(16 * n) =~= frame);
}

/// A datagram of a frame makes the viewer count at least up to its last player, and never beyond
/// the last player of the frame.
pub proof fn law_active(d: Seq<u8>, frame: Seq<u8>, n: int, i: int)
    requires
        0 <= i < crate::wire::packets(n),
        n <= MAX_P_COUNT,
        frame.len() == 16 * n,
        crate::wire::is_part(d, frame, n, i),
    ensures
        !runs_over(d),
        accepted(d),
        end_of(d) == crate::wire::last(i, n),
        end_of(d) <= n,
        i + 1 == crate::wire::packets(n) ==> end_of(d) == n,
{
    crate::wire::law_header(d, frame, n, i);
    crate::wire::law_chunks(n, i);
}

/// How many players a viewer counts after datagrams have come in.
pub open spec fn active_after(active: int, ds: Seq<Seq<u8>>) -> int
    decreases ds.len(),
{
    if ds.len() == 0 {
        active
    } else {
        let before = active_after(active, ds.drop_last());
        if accepted(ds.last()) && before < end_of(ds.last()) {
            end_of(ds.last())
        } else {
            before
        }
    }
}

/// A viewer that counts `start` players counts, after datagrams of a frame have come in any order,
/// no fewer than before, up to the last player of the datagram that reaches furthest: the larger of
/// `start` and the number of all players, once the last datagram has come.
pub proof fn law_active_after(
    start: int,
    frame: Seq<u8>,
    n: int,
    sent: Seq<Seq<u8>>,
    order: Seq<int>,
    i: int,
)
    requires
        0 <= start,
        0 <= n <= MAX_P_COUNT,
        crate::wire::are_parts(sent, frame, n),
        forall|k: int| 0 <= k < order.len() ==> 0 <= #[trigger] order[k] < sent.len(),
    ensures
        ({
            let most = if start < n {
                n
            } else {
                start
            };
            let a = active_after(start, order.map_values(|j: int| sent[j]));
            &&& start <= a <= most
            &&& order.contains(i) ==> crate::wire::last(i, n) <= a
            &&& order.contains(sent.len() - 1) ==> a == most
        }),
    decreases order.len(),
{
    let f = |j: int| sent[j];
    let ds = order.map_values(f);
    if order.len() > 0 {
        let rest = order.drop_last();
        let k = order.last();
        assert(order[order.len() - 1] == k);
        assert(ds.drop_last() =~= rest.map_values(f));
        assert(ds.last() == sent[k]);
        assert forall|x: int| 0 <= x < rest.len() implies 0 <= #[trigger] rest[x] < sent.len() by {
            assert(rest[x] == order[x]);
        }
        law_active_after(start, frame, n, sent, rest, i);
        law_active(sent[k], frame, n, k);
        if order.contains(i) && k != i {
            let x = choose|x: int| 0 <= x < order.len() && order[x] == i;
            assert(rest[x] == i);
        }
        if order.contains(sent.len() - 1) && k != sent.len() - 1 {
            let x = choose|x: int| 0 <= x < order.len() && order[x] == sent.len() - 1;
            assert(rest[x] == sent.len() - 1);
        }
    }
}

} // verus!
