//! The datagrams in which the server sends the players to viewers. Each holds the number of its
//! first player and how many players it holds, both as words from the lowest byte up, and then the
//! records of these players.
use crate::records::PlayerData;
use vstd::prelude::*;

verus! {

/// The number of players that one datagram holds at most.
pub const CHUNK_SIZE: usize = 4000;

/// The size of what comes before the records.
pub const HEADER_BYTES: usize = 8;

/// A word as bytes, from the lowest up.
pub open spec fn word_bytes(w: u32) -> Seq<u8> {
    Seq::new(4, |k: int| crate::records::byte_of(w, k))
}

/// The word that four bytes stand for, the lowest first.
pub open spec fn word_at(b: Seq<u8>, at: int) -> u32 {
    (b[at] + 0x100 * b[at + 1] + 0x1_0000 * b[at + 2] + 0x100_0000 * b[at + 3]) as u32
}

/// Reading a word gives back what was written.
pub proof fn law_word(w: u32)
    ensures
        word_at(word_bytes(w), 0) == w,
        word_bytes(w).len() == 4,
{
}

/// A word is written with its lowest byte first: its bytes are the digits of its value to the base
/// of 256.
pub proof fn law_word_bytes(w: u32)
    ensures
        word_bytes(w).len() == 4,
        word_bytes(w)[0] + 0x100 * word_bytes(w)[1] + 0x1_0000 * word_bytes(w)[2] + 0x100_0000
            * word_bytes(w)[3] == w,
{
}

/// A word that is read has the bytes that it was read from, the lowest first.
pub proof fn law_word_at(b: Seq<u8>, at: int)
    requires
        0 <= at,
        at + 4 <= b.len(),
    ensures
        word_at(b, at) % 0x100 == b[at],
        word_at(b, at) / 0x100 % 0x100 == b[at + 1],
        word_at(b, at) / 0x1_0000 % 0x100 == b[at + 2],
        word_at(b, at) / 0x100_0000 == b[at + 3],
{
}

/// The number of datagrams that a number of players takes.
pub open spec fn packets(n: int) -> int {
    (n + CHUNK_SIZE - 1) / CHUNK_SIZE as int
}

/// The first player of datagram `i`.
pub open spec fn first(i: int) -> int {
    i * CHUNK_SIZE
}

/// The player after the last one of datagram `i`, out of `n`.
pub open spec fn last(i: int, n: int) -> int {
    if first(i) + CHUNK_SIZE <= n {
        first(i) + CHUNK_SIZE
    } else {
        n
    }
}

/// The players of datagram `i`.
pub open spec fn chunk(players: Seq<PlayerData>, i: int) -> Seq<PlayerData> {
    players.subrange(first(i), last(i, players.len() as int))
}

/// The bytes are datagram `i` of `n` players whose records are the bytes `frame`: the header, and
/// the part of the frame that holds the players of the datagram.
pub open spec fn is_part(b: Seq<u8>, frame: Seq<u8>, n: int, i: int) -> bool {
    b == word_bytes(first(i) as u32) + word_bytes((last(i, n) - first(i)) as u32) + frame.subrange(
        16 * first(i),
        16 * last(i, n),
    )
}

/// The datagrams are all those of `n` players whose records are the bytes `frame`, in order.
pub open spec fn are_parts(sent: Seq<Seq<u8>>, frame: Seq<u8>, n: int) -> bool {
    &&& frame.len() == 16 * n
    &&& sent.len() == packets(n)
    &&& forall|i: int| 0 <= i < sent.len() ==> is_part(#[trigger] sent[i], frame, n, i)
}

/// The bytes are datagram `i` of a list of players.
pub open spec fn is_packet(b: Seq<u8>, players: Seq<PlayerData>, i: int) -> bool {
    let n = players.len() as int;
    &&& 0 <= i < packets(n)
    &&& b.len() == HEADER_BYTES + 16 * (last(i, n) - first(i))
    &&& b.subrange(0, 4) == word_bytes(first(i) as u32)
    &&& b.subrange(4, 8) == word_bytes((last(i, n) - first(i)) as u32)
    &&& crate::records::in_memory(crate::records::player_words(chunk(players, i)), b.skip(8))
}

/// A part of a frame that the players have in memory holds the records of its own players.
pub proof fn law_part(b: Seq<u8>, players: Seq<PlayerData>, frame: Seq<u8>, i: int)
    requires
        0 <= i < packets(players.len() as int),
        crate::records::in_memory(crate::records::player_words(players), frame),
        is_part(b, frame, players.len() as int, i),
    ensures
        is_packet(b, players, i),
{
    let n = players.len() as int;
    let words = crate::records::player_words(players);
    let part = crate::records::player_words(chunk(players, i));
    let body = frame.subrange(16 * first(i), 16 * last(i, n));
    law_chunks(n, i);
    assert(b.subrange(0, 4) =~= word_bytes(first(i) as u32));
    assert(b.subrange(4, 8) =~= word_bytes((last(i, n) - first(i)) as u32));
    assert(b.skip(8) =~= body);
    assert forall|c: int| 0 <= c < body.len() implies {
        &&& #[trigger] crate::records::little(part)[c] == crate::records::little(words)[64000 * i
            + c]
        &&& crate::records::big(part)[c] == crate::records::big(words)[64000 * i + c]
    } by {
        let (w, a) = (c / 4, 64000 * i + c);
        assert(w + 16000 * i == a / 4 && c % 4 == a % 4);
        assert(w / 4 + 4000 * i == (a / 4) / 4 && w % 4 == (a / 4) % 4);
        assert(part[w] == words[a / 4]);
    }
    if frame == crate::records::little(words) {
        assert(body =~= crate::records::little(part));
    } else {
        assert(body =~= crate::records::big(part));
    }
}

/// Appends a word, from its lowest byte up.
fn push_word(b: &mut Vec<u8>, w: u32)
    ensures
        final(b)@ == old(b)@ + word_bytes(w),
{
    let ghost before = b@;
    b.push((w % 256) as u8);
    b.push((w / 0x100 % 256) as u8);
    b.push((w / 0x1_0000 % 256) as u8);
    b.push((w / 0x100_0000) as u8);
    assert(b@ =~= before + word_bytes(w));
}

/// The number of datagrams that a list of players takes.
pub fn packet_count(players: &Vec<PlayerData>) -> (n: usize)
    ensures
        n == packets(players@.len() as int),
{
    let n: usize = players.len();
    if n % CHUNK_SIZE == 0 {
        n / CHUNK_SIZE
    } else {
        n / CHUNK_SIZE + 1
    }
}

/// Datagram `i` of `n` players whose records are the bytes `frame`.
pub fn packet_of(frame: &Vec<u8>, n: usize, i: usize) -> (b: Vec<u8>)
    requires
        frame@.len() == 16 * n,
        i < packets(n as int),
    ensures
        is_part(b@, frame@, n as int, i as int),
{
    let from: usize = i * CHUNK_SIZE;
    let to: usize = if n - from > CHUNK_SIZE {
        from + CHUNK_SIZE
    } else {
        n
    };
    let mut b: Vec<u8> = Vec::new();
    push_word(&mut b, from as u32);
    push_word(&mut b, (to - from) as u32);
    assert(16 * n == frame.len());
    let part = vstd::slice::slice_subrange(frame.as_slice(), 16 * from, 16 * to);
    let mut body = vstd::slice::slice_to_vec(part);
    b.append(&mut body);
    assert(b@ =~= word_bytes(from as u32) + word_bytes((to - from) as u32) + part@);
    b
}

/// All datagrams of a list of players, in order. They are the parts of one frame: of the records
/// of all players as they stand in memory.
pub fn broadcast(players: &Vec<PlayerData>) -> (all: Vec<Vec<u8>>)
    ensures
        all@.len() == packets(players@.len() as int),
        exists|frame: Seq<u8>|
            #[trigger] crate::records::in_memory(crate::records::player_words(players@), frame)
                && are_parts(all@.map_values(|b: Vec<u8>| b@), frame, players@.len() as int),
        forall|i: int|
            0 <= i < all@.len() ==> is_packet((#[trigger] all@[i])@, players@, i),
{
    let n: usize = players.len();
    let frame = crate::records::player_bytes(players, 0, n);
    assert(players@.subrange(0, n as int) =~= players@);
    let mut all: Vec<Vec<u8>> = Vec::new();
    let count = packet_count(players);
    let mut i: usize = 0;
    while i < count
        invariant
            i <= count,
            n == players@.len(),
            count == packets(n as int),
            frame@.len() == 16 * n,
            crate::records::in_memory(crate::records::player_words(players@), frame@),
            all@.len() == i,
            forall|j: int| 0 <= j < i ==> is_part((#[trigger] all@[j])@, frame@, n as int, j),
            forall|j: int| 0 <= j < i ==> is_packet((#[trigger] all@[j])@, players@, j),
        decreases count - i,
    {
        let b = packet_of(&frame, n, i);
        proof {
            law_part(b@, players@, frame@, i as int);
        }
        all.push(b);
        i = i + 1;
    }
    assert(are_parts(all@.map_values(|b: Vec<u8>| b@), frame@, n as int));
    all
}

/// The word that four bytes of a datagram stand for.
pub fn read_word(b: &[u8], at: usize) -> (w: u32)
    requires
        at + 4 <= b@.len(),
    ensures
        w == word_at(b@, at as int),
{
    b[at] as u32 + 0x100 * b[at + 1] as u32 + 0x1_0000 * b[at + 2] as u32 + 0x100_0000 * b[at
        + 3] as u32
}

/// The header of a datagram gives back its first player and the number of its players; behind it
/// come the records of so many players, as the frame has them.
pub proof fn law_header(b: Seq<u8>, frame: Seq<u8>, n: int, i: int)
    requires
        0 <= i < packets(n),
        n <= u32::MAX,
        frame.len() == 16 * n,
        is_part(b, frame, n, i),
    ensures
        word_at(b, 0) == first(i),
        word_at(b, 4) == last(i, n) - first(i),
        b.skip(8) == frame.subrange(16 * first(i), 16 * last(i, n)),
        b.len() == HEADER_BYTES + 16 * word_at(b, 4),
{
    let f = word_bytes(first(i) as u32);
    let c = word_bytes((last(i, n) - first(i)) as u32);
    law_chunks(n, i);
    law_word(first(i) as u32);
    law_word((last(i, n) - first(i)) as u32);
    assert(f[0] == b[0] && f[1] == b[1] && f[2] == b[2] && f[3] == b[3]);
    assert(c[0] == b[4] && c[1] == b[5] && c[2] == b[6] && c[3] == b[7]);
    assert(word_at(f, 0) == word_at(b, 0));
    assert(word_at(c, 0) == word_at(b, 4));
    assert(b.skip(8) =~= frame.subrange(16 * first(i), 16 * last(i, n)));
}

/// There are just enough datagrams for the players: all but the last are full, and the last is not
/// empty.
pub proof fn law_packet_count(n: int)
    requires
        0 <= n,
    ensures
        packets(n) * 4000 >= n,
        (packets(n) - 1) * 4000 < n,
        packets(0) == 0,
{
}

/// Every player is in exactly one datagram: each begins where the one before ends, the first with
/// the first player, and the last ends with the last player. None is empty.
pub proof fn law_chunks(n: int, i: int)
    requires
        0 <= i < packets(n),
    ensures
        first(0) == 0,
        first(i) < last(i, n) <= n,
        last(i, n) - first(i) <= CHUNK_SIZE,
        i + 1 < packets(n) ==> first(i + 1) == last(i, n),
        i + 1 == packets(n) ==> last(i, n) == n,
        i + 1 < packets(n) ==> last(i, n) - first(i) == 4000,
{
}

} // verus!
