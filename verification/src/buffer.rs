//! What one player is told about the others: a list of bounded length that takes no heap.
use crate::single::Single;
use vstd::prelude::*;

verus! {

/// The number of players that one stream holds at most.
pub const MAX_STREAM: usize = 50;

/// A player and where it stands.
#[derive(Clone, Copy, PartialEq, Eq, Structural, Debug)]
pub struct PlayerData {
    pub id: u32,
    pub x: Single,
    pub y: Single,
}

/// A list of at most `MAX_STREAM` players, stored in place.
#[derive(Clone, Copy)]
pub struct StreamBuffer {
    data: [PlayerData; MAX_STREAM],
    len: usize,
}

/// The first `MAX_STREAM` entries of a list.
pub open spec fn capped(s: Seq<PlayerData>) -> Seq<PlayerData> {
    if s.len() <= MAX_STREAM {
        s
    } else {
        s.take(MAX_STREAM as int)
    }
}

/// What a slot holds that no player has been put into.
pub open spec fn blank() -> PlayerData {
    PlayerData { id: 0, x: Single { bits: 0 }, y: Single { bits: 0 } }
}

/// The buffer `after` is what appending `p` to `before` leaves, and `taken` is the answer. Where
/// there is no room, nothing changes; where there is, no slot changes but the one that `p` goes to.
pub open spec fn pushed(
    before: StreamBuffer,
    p: PlayerData,
    taken: bool,
    after: StreamBuffer,
) -> bool {
    &&& taken == (before@.len() < MAX_STREAM)
    &&& after.in_place()
    &&& after@ == if taken {
        before@.push(p)
    } else {
        before@
    }
    &&& after.slots() == if taken {
        before.slots().update(before@.len() as int, p)
    } else {
        before.slots()
    }
}

impl View for StreamBuffer {
    type V = Seq<PlayerData>;

    closed spec fn view(&self) -> Seq<PlayerData> {
        self.data@.take(self.len as int)
    }
}

impl StreamBuffer {
    #[verifier::type_invariant]
    pub closed spec fn fits(self) -> bool {
        self.len <= MAX_STREAM
    }

    /// All slots, those behind the end of the list included.
    pub closed spec fn slots(self) -> Seq<PlayerData> {
        self.data@
    }

    /// The list fits into the slots, and is what the first of them hold.
    pub open spec fn in_place(self) -> bool {
        &&& self.fits()
        &&& self.slots().len() == MAX_STREAM
        &&& self@.len() <= MAX_STREAM
        &&& self@ == self.slots().take(self@.len() as int)
    }

    /// The list is in place, and every slot behind it is blank.
    pub open spec fn blank_behind(self) -> bool {
        &&& self.in_place()
        &&& forall|j: int|
            self@.len() <= j < MAX_STREAM ==> #[trigger] self.slots()[j] == blank()
    }

    /// An empty stream, with blank slots.
    pub fn new() -> (b: Self)
        ensures
            b@ == Seq::<PlayerData>::empty(),
            b.slots() == Seq::new(MAX_STREAM as nat, |i: int| blank()),
            b.blank_behind(),
    {
        let nobody = PlayerData { id: 0, x: Single { bits: 0 }, y: Single { bits: 0 } };
        let b = StreamBuffer { data: [nobody; MAX_STREAM], len: 0 };
        assert(b.slots() =~= Seq::new(MAX_STREAM as nat, |i: int| blank()));
        b
    }

    /// Appends a player, and says whether there was room for it.
    pub fn push(&mut self, p: PlayerData) -> (taken: bool)
        ensures
            pushed(*old(self), p, taken, *final(self)),
    {
        proof {
            use_type_invariant(&*self);
        }
        if self.len < MAX_STREAM {
            let ghost before = self@;
            self.data[self.len] = p;
            self.len = self.len + 1;
            assert(self@ =~= before.push(p));
            assert(self@ =~= self.slots().take(self@.len() as int));
            true
        } else {
            false
        }
    }

    /// The number of players in the stream.
    pub fn len(&self) -> (n: usize)
        ensures
            n == self@.len(),
            n <= MAX_STREAM,
            self.in_place(),
    {
        proof {
            use_type_invariant(self);
        }
        self.len
    }

    /// What a slot holds: a player of the list, or behind its end whatever was there.
    pub fn get(&self, i: usize) -> (p: PlayerData)
        requires
            i < MAX_STREAM,
        ensures
            p == self.slots()[i as int],
            i < self@.len() ==> p == self@[i as int],
    {
        proof {
            use_type_invariant(self);
        }
        self.data[i]
    }
}

/// Two buffers with the same list and the same slots are the same.
pub proof fn lemma_same(a: StreamBuffer, b: StreamBuffer)
    requires
        a.in_place(),
        b.in_place(),
        a@ == b@,
        a.slots() == b.slots(),
    ensures
        a == b,
{
    assert(a.data =~= b.data);
}

/// Two buffers with the same list and blank slots behind it are the same.
pub proof fn lemma_same_list(a: StreamBuffer, b: StreamBuffer)
    requires
        a.blank_behind(),
        b.blank_behind(),
        a@ == b@,
    ensures
        a == b,
{
    assert forall|j: int| 0 <= j < MAX_STREAM implies a.slots()[j] == b.slots()[j] by {
        if j < a@.len() {
            assert(a@[j] == a.slots()[j] && b@[j] == b.slots()[j]);
        }
    }
    assert(a.slots() =~= b.slots());
    lemma_same(a, b);
}

/// What is cut is the beginning of the list, up to fifty entries.
pub proof fn law_capped(s: Seq<PlayerData>, i: int)
    ensures
        capped(s).len() == if s.len() < 50 {
            s.len()
        } else {
            50
        },
        0 <= i < s.len() && i < 50 ==> capped(s)[i] == s[i],
{
}

/// A blank slot holds nothing but zeros.
pub proof fn law_blank()
    ensures
        blank().id == 0,
        blank().x.bits == 0,
        blank().y.bits == 0,
{
}

/// A push is taken where there are fewer than fifty entries. It adds one entry and writes one slot;
/// where it is not taken, nothing changes.
pub proof fn law_push(before: StreamBuffer, p: PlayerData, taken: bool, after: StreamBuffer, i: int)
    requires
        before.in_place(),
        pushed(before, p, taken, after),
    ensures
        taken <==> before@.len() < 50,
        taken ==> after@.len() == before@.len() + 1 && after@[before@.len() as int] == p
            && after.slots()[before@.len() as int] == p,
        !taken ==> after == before,
        0 <= i < before@.len() ==> after@[i] == before@[i],
        0 <= i < 50 && !(taken && i == before@.len()) ==> after.slots()[i] == before.slots()[i],
{
    if !taken {
        lemma_same(after, before);
    }
}

/// After players have been appended one by one to an empty stream with blank slots, it lists the
/// first of them, as far as there is room, and the slots behind are still blank. Exactly the first
/// `MAX_STREAM` were taken.
pub proof fn law_pushes(
    states: Seq<StreamBuffer>,
    players: Seq<PlayerData>,
    answers: Seq<bool>,
)
    requires
        states.len() == players.len() + 1,
        answers.len() == players.len(),
        states[0]@ == Seq::<PlayerData>::empty(),
        states[0].blank_behind(),
        forall|k: int|
            0 <= k < players.len() ==> pushed(
                states[k],
                players[k],
                #[trigger] answers[k],
                states[k + 1],
            ),
    ensures
        states.last()@ == capped(players),
        states.last().blank_behind(),
        forall|k: int| 0 <= k < players.len() ==> #[trigger] answers[k] == (k < MAX_STREAM),
    decreases players.len(),
{
    if players.len() == 0 {
        assert(capped(players) =~= Seq::<PlayerData>::empty());
    } else {
        let n = players.len() - 1;
        let (s, p, a) = (states.drop_last(), players.drop_last(), answers.drop_last());
        assert forall|k: int| 0 <= k < p.len() implies pushed(
            s[k],
            p[k],
            #[trigger] a[k],
            s[k + 1],
        ) by {
            assert(a[k] == answers[k]);
        }
        law_pushes(s, p, a);
        assert(pushed(states[n], players[n], answers[n], states[n + 1]));
        assert(s.last() == states[n]);
        assert(states.last()@ =~= capped(players));
        assert forall|k: int| 0 <= k < players.len() implies #[trigger] answers[k] == (k
            < MAX_STREAM) by {
            if k < n {
                assert(a[k] == answers[k]);
            }
        }
    }
}

/// What a full list holds does not change by what is appended to it.
pub proof fn lemma_capped_full(s: Seq<PlayerData>, t: Seq<PlayerData>)
    requires
        s.len() >= MAX_STREAM,
    ensures
        capped(s + t) == capped(s),
{
    assert(capped(s + t) =~= capped(s));
}

/// Two lists that begin with the same full list are cut to the same one.
pub proof fn lemma_capped_prefix(s: Seq<PlayerData>, t: Seq<PlayerData>)
    requires
        s.len() >= MAX_STREAM,
        s.is_prefix_of(t),
    ensures
        capped(s) == capped(t),
{
    assert(t =~= s + t.skip(s.len() as int));
    lemma_capped_full(s, t.skip(s.len() as int));
}

/// Cutting a list first does not change where it is cut in the end.
pub proof fn lemma_capped_twice(s: Seq<PlayerData>, t: Seq<PlayerData>)
    ensures
        capped(capped(s) + t) == capped(s + t),
{
    assert(capped(capped(s) + t) =~= capped(s + t));
}

} // verus!
