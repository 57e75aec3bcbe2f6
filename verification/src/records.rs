//! The records that the server and the graphics device exchange, and their bytes.
use crate::single::Single;
use rand::Rng;
use vstd::prelude::*;

verus! {

/// Stands for "no further player" in a chain of players.
pub const NO_PLAYER: u32 = 0xFFFF_FFFF;

/// The speed that every move is made with: the pattern of 5000.
pub const MOVE_SPEED: u32 = 0x459C_4000;

/// How many moves are made at once.
pub const MOVES_PER_BATCH: u32 = 10_000;

/// For how many milliseconds no move is made after a batch.
pub const BATCH_PAUSE_MS: u64 = 50;

/// A player on the graphics device. `next` chains the players of one hash bucket.
#[derive(Clone, Copy, PartialEq, Eq, Structural, Debug)]
pub struct PlayerData {
    pub next: u32,
    pub id: u32,
    pub x: Single,
    pub y: Single,
}

/// Where a player is heading, and how fast.
#[derive(Clone, Copy, PartialEq, Eq, Structural, Debug)]
pub struct PlayerInput {
    pub dir_x: Single,
    pub dir_y: Single,
    pub speed: Single,
    pub pad: u32,
}

/// What a player asks for.
#[derive(Clone, Copy, PartialEq, Eq, Structural, Debug)]
pub enum InputAction {
    Move { id: u32, dir_x: Single, dir_y: Single, speed: Single },
    Stop { id: u32 },
}

impl InputAction {
    /// The player that the action is for.
    pub open spec fn player(self) -> u32 {
        match self {
            InputAction::Move { id, .. } => id,
            InputAction::Stop { id } => id,
        }
    }

    /// The input that the action leaves.
    pub open spec fn input(self) -> PlayerInput {
        match self {
            InputAction::Move { id, dir_x, dir_y, speed } => PlayerInput {
                dir_x,
                dir_y,
                speed,
                pad: 0,
            },
            InputAction::Stop { id } => at_rest(),
        }
    }
}

/// The input of a player that does not move.
pub open spec fn at_rest() -> PlayerInput {
    PlayerInput {
        dir_x: Single { bits: 0 },
        dir_y: Single { bits: 0 },
        speed: Single { bits: 0 },
        pad: 0,
    }
}

/// The input of a player that does not move.
pub fn rest() -> (r: PlayerInput)
    ensures
        r == at_rest(),
{
    let zero = Single { bits: 0 };
    PlayerInput { dir_x: zero, dir_y: zero, speed: zero, pad: 0 }
}

/// The inputs of `count` players of which none moves.
pub fn resting(count: usize) -> (inputs: Vec<PlayerInput>)
    ensures
        inputs@ == Seq::new(count as nat, |i: int| at_rest()),
{
    let mut inputs: Vec<PlayerInput> = Vec::new();
    let mut i: usize = 0;
    while i < count
        invariant
            i <= count,
            inputs@ =~= Seq::new(i as nat, |j: int| at_rest()),
        decreases count - i,
    {
        inputs.push(rest());
        i = i + 1;
    }
    inputs
}

/// Puts an action into effect on the inputs. The player has to be one of them.
pub fn apply_action(inputs: &mut Vec<PlayerInput>, action: InputAction)
    requires
        action.player() < old(inputs)@.len(),
    ensures
        final(inputs)@ == old(inputs)@.update(action.player() as int, action.input()),
        match action {
            InputAction::Move { id, dir_x, dir_y, speed } => {
                let r = final(inputs)@[id as int];
                r.dir_x == dir_x && r.dir_y == dir_y && r.speed == speed && r.pad == 0
            },
            InputAction::Stop { id } => {
                let r = final(inputs)@[id as int];
                r.dir_x.bits == 0 && r.dir_y.bits == 0 && r.speed.bits == 0 && r.pad == 0
            },
        },
{
    match action {
        InputAction::Move { id, dir_x, dir_y, speed } => {
            inputs.set(id as usize, PlayerInput { dir_x, dir_y, speed, pad: 0 });
        },
        InputAction::Stop { id } => {
            inputs.set(id as usize, rest());
        },
    }
}

/// The inputs after actions have been put into effect one after the other.
pub open spec fn applied(inputs: Seq<PlayerInput>, actions: Seq<InputAction>) -> Seq<PlayerInput>
    decreases actions.len(),
{
    if actions.len() == 0 {
        inputs
    } else {
        applied(inputs, actions.drop_last()).update(
            actions.last().player() as int,
            actions.last().input(),
        )
    }
}

/// A move gives its player exactly the direction and the speed that were asked for, and changes
/// nobody else's input.
pub proof fn law_move(
    inputs: Seq<PlayerInput>,
    id: u32,
    dir_x: Single,
    dir_y: Single,
    speed: Single,
)
    requires
        id < inputs.len(),
    ensures
        ({
            let after = applied(inputs, seq![InputAction::Move { id, dir_x, dir_y, speed }]);
            &&& after.len() == inputs.len()
            &&& after[id as int].dir_x == dir_x
            &&& after[id as int].dir_y == dir_y
            &&& after[id as int].speed == speed
            &&& after[id as int].pad == 0
            &&& forall|j: int|
                0 <= j < inputs.len() && j != id ==> #[trigger] after[j] == inputs[j]
        }),
{
    let actions = seq![InputAction::Move { id, dir_x, dir_y, speed }];
    assert(actions.drop_last() =~= Seq::<InputAction>::empty());
    assert(applied(inputs, actions.drop_last()) == inputs);
}

/// A stop leaves its player without direction and speed, and changes nobody else's input.
pub proof fn law_stop(inputs: Seq<PlayerInput>, id: u32)
    requires
        id < inputs.len(),
    ensures
        ({
            let after = applied(inputs, seq![InputAction::Stop { id }]);
            &&& after.len() == inputs.len()
            &&& after[id as int].dir_x.bits == 0
            &&& after[id as int].dir_y.bits == 0
            &&& after[id as int].speed.bits == 0
            &&& after[id as int].pad == 0
            &&& forall|j: int|
                0 <= j < inputs.len() && j != id ==> #[trigger] after[j] == inputs[j]
        }),
{
    let actions = seq![InputAction::Stop { id }];
    assert(actions.drop_last() =~= Seq::<InputAction>::empty());
    assert(applied(inputs, actions.drop_last()) == inputs);
}

/// The input of a player is what the last action for it leaves. Without an action for it, it stays
/// as it was.
pub proof fn law_last_action(inputs: Seq<PlayerInput>, actions: Seq<InputAction>, i: int)
    requires
        forall|k: int| 0 <= k < actions.len() ==> (#[trigger] actions[k]).player() < inputs.len(),
        0 <= i < inputs.len(),
    ensures
        applied(inputs, actions).len() == inputs.len(),
        (forall|k: int| 0 <= k < actions.len() ==> (#[trigger] actions[k]).player() != i) ==> applied(
            inputs,
            actions,
        )[i] == inputs[i],
        forall|k: int|
            0 <= k < actions.len() && (#[trigger] actions[k]).player() == i && (forall|j: int|
                k < j < actions.len() ==> (#[trigger] actions[j]).player() != i) ==> applied(
                inputs,
                actions,
            )[i] == actions[k].input(),
    decreases actions.len(),
{
    if actions.len() > 0 {
        let rest = actions.drop_last();
        assert forall|k: int| 0 <= k < rest.len() implies (#[trigger] rest[k]).player()
            < inputs.len() by {
            assert(rest[k] == actions[k]);
        }
        law_last_action(inputs, rest, i);
        let last = actions.len() - 1;
        assert(actions[last].player() < inputs.len());
        assert forall|k: int|
            0 <= k < actions.len() && (#[trigger] actions[k]).player() == i && (forall|j: int|
                k < j < actions.len() ==> (#[trigger] actions[j]).player() != i) implies applied(
            inputs,
            actions,
        )[i] == actions[k].input() by {
            if k < last {
                assert(rest[k] == actions[k]);
                assert(actions[last].player() != i);
                assert forall|j: int| k < j < rest.len() implies (#[trigger] rest[j]).player()
                    != i by {
                    assert(rest[j] == actions[j]);
                }
            }
        }
        if forall|k: int| 0 <= k < actions.len() ==> (#[trigger] actions[k]).player() != i {
            assert forall|k: int| 0 <= k < rest.len() implies (#[trigger] rest[k]).player()
                != i by {
                assert(rest[k] == actions[k]);
            }
            assert(actions[last].player() != i);
        }
    }
}

/// Players at given positions, numbered in that order and not chained.
pub fn new_players(positions: &Vec<(Single, Single)>) -> (players: Vec<PlayerData>)
    ensures
        players@ == Seq::new(
            positions@.len(),
            |i: int|
                PlayerData {
                    next: NO_PLAYER,
                    id: (i as usize) as u32,
                    x: positions@[i].0,
                    y: positions@[i].1,
                },
        ),
        forall|i: int|
            0 <= i < positions@.len() && i <= u32::MAX ==> (#[trigger] players@[i]).id == i,
{
    let mut players: Vec<PlayerData> = Vec::new();
    let mut i: usize = 0;
    while i < positions.len()
        invariant
            i <= positions@.len(),
            players@ =~= Seq::new(
                i as nat,
                |j: int|
                    PlayerData {
                        next: NO_PLAYER,
                        id: (j as usize) as u32,
                        x: positions@[j].0,
                        y: positions@[j].1,
                    },
            ),
        decreases positions@.len() - i,
    {
        let (x, y) = positions[i];
        players.push(PlayerData { next: NO_PLAYER, id: i as u32, x, y });
        i = i + 1;
    }
    players
}

/// A move of a given player into a given direction, at the usual speed.
pub fn move_of(id: u32, dir_x: Single, dir_y: Single) -> (a: InputAction)
    ensures
        a == (InputAction::Move { id, dir_x, dir_y, speed: Single { bits: MOVE_SPEED } }),
{
    InputAction::Move { id, dir_x, dir_y, speed: Single { bits: MOVE_SPEED } }
}

/// The usual speed is 5000.
pub proof fn law_move_speed()
    ensures
        (Single { bits: MOVE_SPEED }).units() == 5000 * crate::single::one(),
{
    vstd::arithmetic::power2::lemma2_to64();
    crate::single::lemma_p2_add(11, 138);
    crate::single::lemma_mag_split(138, 0x9C_4000);
    assert(0x9C_4000 * crate::single::p2(138) == 5000 * crate::single::one())
        by (nonlinear_arith)
        requires
            crate::single::one() == 0x800 * crate::single::p2(138),
    ;
}

/// A number below `bound` from rand's `gen_range` on the generator of this thread. The range
/// `0..bound` is the one that `gen_range` samples; it panics on an empty range. Which number comes
/// is left to chance.
#[verifier::external_body]
fn random_below(bound: u32) -> (r: u32)
    requires
        0 < bound,
    ensures
        r < bound,
{
    rand::thread_rng().gen_range(0..bound)
}

/// A move of some player out of `count` into a given direction. Chance decides which one.
pub fn random_move(count: u32, dir_x: Single, dir_y: Single) -> (a: InputAction)
    requires
        0 < count,
    ensures
        a.player() < count,
        a == (InputAction::Move {
            id: a.player(),
            dir_x,
            dir_y,
            speed: Single { bits: MOVE_SPEED },
        }),
{
    move_of(random_below(count), dir_x, dir_y)
}

/// What the one who makes the moves does next.
#[derive(Clone, Copy, PartialEq, Eq, Structural, Debug)]
pub enum MoveStep {
    /// Makes the first move of a player.
    First { id: u32 },
    /// Makes a move of some player.
    Random,
    /// Makes no move for a while.
    Pause,
}

/// The order of the moves of `count` players: a first move of each, and then one batch after the
/// other, with a pause after each.
#[derive(Clone, Copy, PartialEq, Eq, Structural, Debug)]
pub struct MovePlan {
    pub count: u32,
    /// The player whose first move comes next.
    pub first: u32,
    /// The number of moves made in this batch.
    pub batch: u32,
}

impl MovePlan {
    /// No more first moves have been made than there are players, and no more moves than a batch
    /// has.
    pub open spec fn valid(self) -> bool {
        self.first <= self.count && self.batch <= MOVES_PER_BATCH
    }

    /// The step that comes next.
    pub open spec fn step(self) -> MoveStep {
        if self.first < self.count {
            MoveStep::First { id: self.first }
        } else if self.batch < MOVES_PER_BATCH {
            MoveStep::Random
        } else {
            MoveStep::Pause
        }
    }

    /// The plan after that step.
    pub open spec fn stepped(self) -> MovePlan {
        if self.first < self.count {
            MovePlan { first: (self.first + 1) as u32, ..self }
        } else if self.batch < MOVES_PER_BATCH {
            MovePlan { batch: (self.batch + 1) as u32, ..self }
        } else {
            MovePlan { batch: 0, ..self }
        }
    }

    /// The plan after `k` steps.
    pub open spec fn after(self, k: nat) -> MovePlan
        decreases k,
    {
        if k == 0 {
            self
        } else {
            self.after((k - 1) as nat).stepped()
        }
    }

    /// A plan before its first step.
    pub fn new(count: u32) -> (p: Self)
        ensures
            p == start_plan(count),
            p.valid(),
    {
        MovePlan { count, first: 0, batch: 0 }
    }

    /// Goes on by one step, and says which.
    pub fn next(&mut self) -> (s: MoveStep)
        requires
            old(self).valid(),
        ensures
            s == old(self).step(),
            *final(self) == old(self).stepped(),
            final(self).valid(),
    {
        if self.first < self.count {
            let id = self.first;
            self.first = self.first + 1;
            MoveStep::First { id }
        } else if self.batch < MOVES_PER_BATCH {
            self.batch = self.batch + 1;
            MoveStep::Random
        } else {
            self.batch = 0;
            MoveStep::Pause
        }
    }
}

/// A plan before its first step.
pub open spec fn start_plan(count: u32) -> MovePlan {
    MovePlan { count, first: 0, batch: 0 }
}

/// A plan makes the first moves of all players in order, and then goes round in batches: each has
/// `MOVES_PER_BATCH` moves and a pause.
pub proof fn law_move_plan(count: u32, k: nat)
    ensures
        ({
            let p = start_plan(count).after(k);
            let round = MOVES_PER_BATCH + 1;
            &&& p.valid()
            &&& k < count ==> p.step() == (MoveStep::First { id: k as u32 })
            &&& k >= count && (k - count) % round < MOVES_PER_BATCH ==> p.step()
                == MoveStep::Random
            &&& k >= count && (k - count) % round == MOVES_PER_BATCH ==> p.step()
                == MoveStep::Pause
        }),
{
    lemma_move_plan(count, k);
}

/// Twenty pauses make a second, and a batch has ten thousand moves.
pub proof fn law_pace()
    ensures
        20 * BATCH_PAUSE_MS == 1000,
        MOVES_PER_BATCH == 10_000,
{
}

proof fn lemma_move_plan(count: u32, k: nat)
    ensures
        start_plan(count).after(k) == (MovePlan {
            count,
            first: if k <= count {
                k as u32
            } else {
                count
            },
            batch: if k <= count {
                0
            } else {
                ((k - count) % (MOVES_PER_BATCH + 1)) as u32
            },
        }),
    decreases k,
{
    if k > 0 {
        lemma_move_plan(count, (k - 1) as nat);
    }
}

/// The word at position `k` of a player's record.
pub open spec fn player_word(p: PlayerData, k: int) -> u32 {
    if k == 0 {
        p.next
    } else if k == 1 {
        p.id
    } else if k == 2 {
        p.x.bits
    } else {
        p.y.bits
    }
}

/// The records of a list of players, word by word.
pub open spec fn player_words(s: Seq<PlayerData>) -> Seq<u32> {
    Seq::new((4 * s.len()) as nat, |i: int| player_word(s[i / 4], i % 4))
}

/// The word at position `k` of an input's record.
pub open spec fn input_word(p: PlayerInput, k: int) -> u32 {
    if k == 0 {
        p.dir_x.bits
    } else if k == 1 {
        p.dir_y.bits
    } else if k == 2 {
        p.speed.bits
    } else {
        p.pad
    }
}

/// The records of a list of inputs, word by word.
pub open spec fn input_words(s: Seq<PlayerInput>) -> Seq<u32> {
    Seq::new((4 * s.len()) as nat, |i: int| input_word(s[i / 4], i % 4))
}

/// Byte `k` of a word, counted from the lowest.
pub open spec fn byte_of(w: u32, k: int) -> u8 {
    if k == 0 {
        (w % 256) as u8
    } else if k == 1 {
        (w / 0x100 % 256) as u8
    } else if k == 2 {
        (w / 0x1_0000 % 256) as u8
    } else {
        (w / 0x100_0000) as u8
    }
}

/// Words as bytes, each word from its lowest byte up.
pub open spec fn little(s: Seq<u32>) -> Seq<u8> {
    Seq::new((4 * s.len()) as nat, |i: int| byte_of(s[i / 4], i % 4))
}

/// Words as bytes, each word from its highest byte down.
pub open spec fn big(s: Seq<u32>) -> Seq<u8> {
    Seq::new((4 * s.len()) as nat, |i: int| byte_of(s[i / 4], 3 - i % 4))
}

/// The bytes are those that the words have in the memory of some machine.
pub open spec fn in_memory(words: Seq<u32>, bytes: Seq<u8>) -> bool {
    bytes == little(words) || bytes == big(words)
}

/// The bytes of words, by bytemuck's `cast_slice`, which reads the memory of the words as bytes:
/// four for each word, in the byte order of the machine. Which of the two orders that is, is a
/// matter of the machine and left open.
#[verifier::external_body]
fn bytes_of_words(words: &Vec<u32>) -> (bytes: Vec<u8>)
    ensures
        in_memory(words@, bytes@),
{
    bytemuck::cast_slice::<u32, u8>(words.as_slice()).to_vec()
}

/// Why bytemuck does not take bytes for words.
#[verifier::external_type_specification]
#[verifier::external_body]
pub struct ExPodCastError(bytemuck::PodCastError);

/// The words that bytes stand for, by bytemuck's `try_cast_slice`, which reads the memory of the
/// bytes as words, in the byte order of the machine. It fails where the bytes are no whole number
/// of words, and where they do not begin at an address that suits words; the address is a matter of
/// the machine and left open.
#[verifier::external_body]
fn words_of_bytes(bytes: &[u8]) -> (words: Result<Vec<u32>, bytemuck::PodCastError>)
    ensures
        words matches Ok(w) ==> in_memory(w@, bytes@),
{
    bytemuck::try_cast_slice::<u8, u32>(bytes).map(|w| w.to_vec())
}

/// The words of the records of the players from `from` up to `to`.
fn words_of_players(players: &Vec<PlayerData>, from: usize, to: usize) -> (words: Vec<u32>)
    requires
        from <= to <= players@.len(),
    ensures
        words@ == player_words(players@.subrange(from as int, to as int)),
{
    let mut words: Vec<u32> = Vec::new();
    let mut i: usize = from;
    let ghost part = players@.subrange(from as int, to as int);
    while i < to
        invariant
            from <= i <= to <= players@.len(),
            part == players@.subrange(from as int, to as int),
            words@.len() == 4 * (i - from),
            forall|j: int|
                0 <= j < words@.len() ==> #[trigger] words@[j] == player_word(part[j / 4], j % 4),
        decreases to - i,
    {
        let p = players[i];
        assert(p == part[i - from]);
        words.push(p.next);
        words.push(p.id);
        words.push(p.x.bits);
        words.push(p.y.bits);
        i = i + 1;
    }
    assert(words@ =~= player_words(part));
    words
}

/// The bytes of the records of the players from `from` up to `to`, as they stand in memory.
pub fn player_bytes(players: &Vec<PlayerData>, from: usize, to: usize) -> (bytes: Vec<u8>)
    requires
        from <= to <= players@.len(),
    ensures
        in_memory(player_words(players@.subrange(from as int, to as int)), bytes@),
        bytes@.len() == 16 * (to - from),
{
    bytes_of_words(&words_of_players(players, from, to))
}

/// The bytes of the records of inputs, as they stand in memory.
pub fn input_bytes(inputs: &Vec<PlayerInput>) -> (bytes: Vec<u8>)
    ensures
        in_memory(input_words(inputs@), bytes@),
        bytes@.len() == 16 * inputs@.len(),
{
    let mut words: Vec<u32> = Vec::new();
    let mut i: usize = 0;
    while i < inputs.len()
        invariant
            i <= inputs@.len(),
            words@.len() == 4 * i,
            forall|j: int|
                0 <= j < words@.len() ==> #[trigger] words@[j] == input_word(
                    inputs@[j / 4],
                    j % 4,
                ),
        decreases inputs@.len() - i,
    {
        let p = inputs[i];
        words.push(p.dir_x.bits);
        words.push(p.dir_y.bits);
        words.push(p.speed.bits);
        words.push(p.pad);
        i = i + 1;
    }
    assert(words@ =~= input_words(inputs@));
    bytes_of_words(&words)
}

/// The bytes of the counter from which neighbour records are given out, before the first.
pub fn fresh_allocator() -> (bytes: Vec<u8>)
    ensures
        bytes@ == seq![0u8, 0u8, 0u8, 0u8],
{
    let mut words: Vec<u32> = Vec::new();
    words.push(0);
    let bytes = bytes_of_words(&words);
    assert(bytes@ =~= seq![0u8, 0u8, 0u8, 0u8]);
    bytes
}

/// Why players could not be read back.
#[derive(Clone, Copy, PartialEq, Eq, Structural, Debug)]
pub enum ReadBackError {
    /// The bytes cannot be taken for words where they are.
    Cast,
    /// There are not as many records as players.
    Length,
}

/// Replaces all players by those that the words hold. Nothing changes where there are not as many
/// records as players.
pub fn load_words(players: &mut Vec<PlayerData>, words: &Vec<u32>) -> (r: Result<
    (),
    ReadBackError,
>)
    ensures
        words@.len() == 4 * old(players)@.len() ==> {
            &&& r == Ok::<(), ReadBackError>(())
            &&& final(players)@.len() == old(players)@.len()
            &&& player_words(final(players)@) == words@
        },
        words@.len() != 4 * old(players)@.len() ==> {
            &&& r == Err::<(), ReadBackError>(ReadBackError::Length)
            &&& final(players)@ == old(players)@
        },
{
    let total: usize = words.len();
    if total % 4 != 0 || total / 4 != players.len() {
        return Err(ReadBackError::Length);
    }
    let mut i: usize = 0;
    while i < players.len()
        invariant
            i <= players@.len(),
            words@.len() == 4 * players@.len(),
            total == words@.len(),
            players@.len() == old(players)@.len(),
            forall|j: int|
                0 <= j < 4 * i ==> #[trigger] words@[j] == player_word(players@[j / 4], j % 4),
        decreases players@.len() - i,
    {
        let ghost before = players@;
        let p = PlayerData {
            next: words[4 * i],
            id: words[4 * i + 1],
            x: Single { bits: words[4 * i + 2] },
            y: Single { bits: words[4 * i + 3] },
        };
        players.set(i, p);
        proof {
            assert forall|j: int| 0 <= j < 4 * (i + 1) implies #[trigger] words@[j] == player_word(
                players@[j / 4],
                j % 4,
            ) by {
                if j < 4 * i {
                    assert(j / 4 < i);
                    assert(players@[j / 4] == before[j / 4]);
                } else {
                    assert(j / 4 == i);
                }
            }
        }
        i = i + 1;
    }
    assert(player_words(players@) =~= words@);
    Ok(())
}

/// Replaces all players by those that the device has handed back. Nothing changes where that
/// fails.
pub fn read_back(players: &mut Vec<PlayerData>, bytes: &[u8]) -> (r: Result<(), ReadBackError>)
    ensures
        final(players)@.len() == old(players)@.len(),
        match r {
            Ok(_) => in_memory(player_words(final(players)@), bytes@),
            Err(e) => final(players)@ == old(players)@ && (e == ReadBackError::Length ==> bytes@.len()
                != 16 * old(players)@.len()),
        },
        bytes@.len() != 16 * old(players)@.len() ==> r is Err,
{
    match words_of_bytes(bytes) {
        Ok(words) => load_words(players, &words),
        Err(_) => Err(ReadBackError::Cast),
    }
}

proof fn lemma_bytes_make_word(v: u32, w: u32)
    requires
        forall|k: int| 0 <= k < 4 ==> #[trigger] byte_of(v, k) == byte_of(w, k),
    ensures
        v == w,
{
    assert(byte_of(v, 0) == byte_of(w, 0));
    assert(byte_of(v, 1) == byte_of(w, 1));
    assert(byte_of(v, 2) == byte_of(w, 2));
    assert(byte_of(v, 3) == byte_of(w, 3));
}

/// The bytes of words, in either order, determine the words.
pub proof fn law_bytes_determine_words(s: Seq<u32>, t: Seq<u32>)
    requires
        little(s) == little(t) || big(s) == big(t),
    ensures
        s == t,
{
    assert(little(s).len() == 4 * s.len() && big(s).len() == 4 * s.len());
    assert(little(t).len() == 4 * t.len() && big(t).len() == 4 * t.len());
    assert(s.len() == t.len());
    assert forall|i: int| 0 <= i < s.len() implies s[i] == t[i] by {
        assert forall|k: int| 0 <= k < 4 implies #[trigger] byte_of(s[i], k) == byte_of(
            t[i],
            k,
        ) by {
            let (a, b) = (4 * i + k, 4 * i + 3 - k);
            assert(a / 4 == i && a % 4 == k && b / 4 == i && b % 4 == 3 - k);
            assert(little(s)[a] == byte_of(s[i], k) && little(t)[a] == byte_of(t[i], k));
            assert(big(s)[b] == byte_of(s[i], k) && big(t)[b] == byte_of(t[i], k));
        }
        lemma_bytes_make_word(s[i], t[i]);
    }
    assert(s =~= t);
}

/// The words of records determine the players: nothing of a player is lost in its record.
pub proof fn law_words_determine_players(s: Seq<PlayerData>, t: Seq<PlayerData>)
    requires
        player_words(s) == player_words(t),
    ensures
        s == t,
{
    assert(player_words(s).len() == 4 * s.len() && player_words(t).len() == 4 * t.len());
    assert forall|i: int| 0 <= i < s.len() implies s[i] == t[i] by {
        let a = 4 * i;
        assert(player_words(s)[a] == s[i].next && player_words(t)[a] == t[i].next);
        assert(player_words(s)[a + 1] == s[i].id && player_words(t)[a + 1] == t[i].id);
        assert(player_words(s)[a + 2] == s[i].x.bits && player_words(t)[a + 2] == t[i].x.bits);
        assert(player_words(s)[a + 3] == s[i].y.bits && player_words(t)[a + 3] == t[i].y.bits);
    }
    assert(s =~= t);
}

/// The record of player `i` is four words: the next player of its chain, its number, and the
/// patterns of its coordinates. The records follow each other without a gap.
pub proof fn law_player_record(s: Seq<PlayerData>, i: int)
    requires
        0 <= i < s.len(),
    ensures
        player_words(s).len() == 4 * s.len(),
        player_words(s)[4 * i] == s[i].next,
        player_words(s)[4 * i + 1] == s[i].id,
        player_words(s)[4 * i + 2] == s[i].x.bits,
        player_words(s)[4 * i + 3] == s[i].y.bits,
{
}

/// The record of the input of player `i` is four words: the patterns of its direction and of its
/// speed, and the padding. The records follow each other without a gap.
pub proof fn law_input_record(s: Seq<PlayerInput>, i: int)
    requires
        0 <= i < s.len(),
    ensures
        input_words(s).len() == 4 * s.len(),
        input_words(s)[4 * i] == s[i].dir_x.bits,
        input_words(s)[4 * i + 1] == s[i].dir_y.bits,
        input_words(s)[4 * i + 2] == s[i].speed.bits,
        input_words(s)[4 * i + 3] == s[i].pad,
{
}

/// The words of records determine the inputs: nothing of an input is lost in its record.
pub proof fn law_words_determine_inputs(s: Seq<PlayerInput>, t: Seq<PlayerInput>)
    requires
        input_words(s) == input_words(t),
    ensures
        s == t,
{
    assert(input_words(s).len() == 4 * s.len() && input_words(t).len() == 4 * t.len());
    assert forall|i: int| 0 <= i < s.len() implies s[i] == t[i] by {
        law_input_record(s, i);
        law_input_record(t, i);
    }
    assert(s =~= t);
}

/// What four bytes at `a` stand for where the lowest comes first.
pub open spec fn low_first(b: Seq<u8>, a: int) -> int {
    b[a] + 0x100 * b[a + 1] + 0x1_0000 * b[a + 2] + 0x100_0000 * b[a + 3]
}

/// What four bytes at `a` stand for where the highest comes first.
pub open spec fn high_first(b: Seq<u8>, a: int) -> int {
    0x100_0000 * b[a] + 0x1_0000 * b[a + 1] + 0x100 * b[a + 2] + b[a + 3]
}

/// In memory each word takes four bytes, which stand for its value: in all words from the lowest
/// byte up, or in all of them from the highest down.
pub proof fn law_in_memory(words: Seq<u32>, bytes: Seq<u8>)
    requires
        in_memory(words, bytes),
    ensures
        bytes.len() == 4 * words.len(),
        (forall|i: int| 0 <= i < words.len() ==> #[trigger] words[i] == low_first(bytes, 4 * i))
            || (forall|i: int|
            0 <= i < words.len() ==> #[trigger] words[i] == high_first(bytes, 4 * i)),
{
    if bytes == little(words) {
        assert forall|i: int| 0 <= i < words.len() implies #[trigger] words[i] == low_first(
            bytes,
            4 * i,
        ) by {
            lemma_word_of_bytes(words[i]);
            assert(bytes[4 * i] == byte_of(words[i], 0));
            assert(bytes[4 * i + 1] == byte_of(words[i], 1));
            assert(bytes[4 * i + 2] == byte_of(words[i], 2));
            assert(bytes[4 * i + 3] == byte_of(words[i], 3));
        }
    } else {
        assert forall|i: int| 0 <= i < words.len() implies #[trigger] words[i] == high_first(
            bytes,
            4 * i,
        ) by {
            lemma_word_of_bytes(words[i]);
            assert(bytes[4 * i] == byte_of(words[i], 3));
            assert(bytes[4 * i + 1] == byte_of(words[i], 2));
            assert(bytes[4 * i + 2] == byte_of(words[i], 1));
            assert(bytes[4 * i + 3] == byte_of(words[i], 0));
        }
    }
}

proof fn lemma_word_of_bytes(w: u32)
    ensures
        w == byte_of(w, 0) + 0x100 * byte_of(w, 1) + 0x1_0000 * byte_of(w, 2) + 0x100_0000
            * byte_of(w, 3),
{
}

/// The device finds the input of player `i` in the sixteen bytes that begin at `16 * i`.
pub proof fn law_inputs_in_memory(s: Seq<PlayerInput>, bytes: Seq<u8>, i: int)
    requires
        in_memory(input_words(s), bytes),
        0 <= i < s.len(),
    ensures
        bytes.len() == 16 * s.len(),
        ({
            ||| low_first(bytes, 16 * i) == s[i].dir_x.bits && low_first(bytes, 16 * i + 4)
                == s[i].dir_y.bits && low_first(bytes, 16 * i + 8) == s[i].speed.bits && low_first(
                bytes,
                16 * i + 12,
            ) == s[i].pad
            ||| high_first(bytes, 16 * i) == s[i].dir_x.bits && high_first(bytes, 16 * i + 4)
                == s[i].dir_y.bits && high_first(bytes, 16 * i + 8) == s[i].speed.bits
                && high_first(bytes, 16 * i + 12) == s[i].pad
        }),
{
    let w = input_words(s);
    law_in_memory(w, bytes);
    law_input_record(s, i);
    assert(4 * (4 * i) == 16 * i && 4 * (4 * i + 1) == 16 * i + 4 && 4 * (4 * i + 2) == 16 * i + 8
        && 4 * (4 * i + 3) == 16 * i + 12);
    assert(w[4 * i] == w[4 * i] && w[4 * i + 1] == w[4 * i + 1] && w[4 * i + 2] == w[4 * i + 2]
        && w[4 * i + 3] == w[4 * i + 3]);
}

/// What is read back is what was written: where the bytes of one list of players are taken, in the
/// same order, for another list, the two lists are the same.
pub proof fn law_read_back(written: Seq<PlayerData>, read: Seq<PlayerData>, bytes: Seq<u8>)
    requires
        (bytes == little(player_words(written)) && bytes == little(player_words(read))) || (bytes
            == big(player_words(written)) && bytes == big(player_words(read))),
    ensures
        read == written,
{
    law_bytes_determine_words(player_words(written), player_words(read));
    law_words_determine_players(written, read);
}

} // verus!
